//! Mathematical vocabulary of the library: powers, factorials, binomial
//! coefficients and range products over the natural numbers, together with
//! the lemmas that relate them.

use vstd::prelude::*;

verus! {

/// `b` raised to the power `e` over the naturals.
pub open spec fn pow_nat(b: nat, e: nat) -> nat
    decreases e,
{
    if e == 0 {
        1
    } else {
        b * pow_nat(b, (e - 1) as nat)
    }
}

/// The factorial of `n`.
pub open spec fn fact(n: nat) -> nat
    decreases n,
{
    if n == 0 {
        1
    } else {
        n * fact((n - 1) as nat)
    }
}

/// The binomial coefficient, by Pascal's rule.
pub open spec fn choose_nat(n: nat, k: nat) -> nat
    decreases n,
{
    if k == 0 {
        1
    } else if n == 0 {
        0
    } else {
        choose_nat((n - 1) as nat, (k - 1) as nat) + choose_nat((n - 1) as nat, k)
    }
}

/// The product of the integers in `(lo, hi]`; one when the range is empty.
pub open spec fn prod_range(lo: nat, hi: nat) -> nat
    decreases hi,
{
    if hi <= lo {
        1
    } else {
        prod_range(lo, (hi - 1) as nat) * hi
    }
}

/// `r` is the integer square root of `n`: the largest natural whose square
/// does not exceed `n`.
pub open spec fn is_isqrt(r: nat, n: nat) -> bool {
    r * r <= n < (r + 1) * (r + 1)
}

/// The integer square root of `n`.
pub open spec fn isqrt(n: nat) -> nat {
    choose|r: nat| is_isqrt(r, n)
}

pub proof fn lemma_isqrt_exists(n: nat)
    ensures
        exists|r: nat| is_isqrt(r, n),
    decreases n,
{
    if n == 0 {
        assert(0 * 0 <= n && n < (0 + 1) * (0 + 1)) by (nonlinear_arith)
            requires
                n == 0,
        ;
        assert(is_isqrt(0, n));
    } else {
        let m = (n - 1) as nat;
        lemma_isqrt_exists(m);
        let r = choose|r: nat| is_isqrt(r, m);
        if (r + 1) * (r + 1) <= n {
            assert((r + 1) * (r + 1) == n);
            assert(n < (r + 2) * (r + 2)) by (nonlinear_arith)
                requires
                    (r + 1) * (r + 1) == n,
            ;
            assert(is_isqrt(r + 1, n));
        } else {
            assert(is_isqrt(r, n));
        }
    }
}

pub proof fn lemma_isqrt_unique(n: nat, r1: nat, r2: nat)
    requires
        is_isqrt(r1, n),
        is_isqrt(r2, n),
    ensures
        r1 == r2,
{
    assert(!(r1 < r2) && !(r2 < r1)) by (nonlinear_arith)
        requires
            r1 * r1 <= n < (r1 + 1) * (r1 + 1),
            r2 * r2 <= n < (r2 + 1) * (r2 + 1),
    ;
}

/// `isqrt(n)` indeed satisfies the square-root characterization.
pub proof fn lemma_isqrt_props(n: nat)
    ensures
        is_isqrt(isqrt(n), n),
{
    lemma_isqrt_exists(n);
}

/// A positive number has a positive integer square root.
pub proof fn lemma_isqrt_positive(n: nat)
    requires
        n >= 1,
    ensures
        isqrt(n) >= 1,
{
    lemma_isqrt_props(n);
    let r = isqrt(n);
    assert(r >= 1) by (nonlinear_arith)
        requires
            n < (r + 1) * (r + 1),
            n >= 1,
    ;
}

pub proof fn lemma_pow_nat_positive(b: nat, e: nat)
    requires
        b >= 1,
    ensures
        pow_nat(b, e) >= 1,
    decreases e,
{
    if e > 0 {
        lemma_pow_nat_positive(b, (e - 1) as nat);
        assert(b * pow_nat(b, (e - 1) as nat) >= 1) by (nonlinear_arith)
            requires
                b >= 1,
                pow_nat(b, (e - 1) as nat) >= 1,
        ;
    }
}

pub proof fn lemma_fact_positive(n: nat)
    ensures
        fact(n) >= 1,
    decreases n,
{
    if n > 0 {
        lemma_fact_positive((n - 1) as nat);
        assert(n * fact((n - 1) as nat) >= 1) by (nonlinear_arith)
            requires
                n >= 1,
                fact((n - 1) as nat) >= 1,
        ;
    }
}

/// `b^(e1 + e2) == b^e1 * b^e2`.
pub proof fn lemma_pow_nat_adds(b: nat, e1: nat, e2: nat)
    ensures
        pow_nat(b, e1 + e2) == pow_nat(b, e1) * pow_nat(b, e2),
    decreases e1,
{
    if e1 == 0 {
        assert(pow_nat(b, e2) == 1 * pow_nat(b, e2));
    } else {
        lemma_pow_nat_adds(b, (e1 - 1) as nat, e2);
        assert(pow_nat(b, e1 + e2) == b * pow_nat(b, ((e1 - 1) + e2) as nat));
        assert(b * (pow_nat(b, (e1 - 1) as nat) * pow_nat(b, e2)) == (b * pow_nat(
            b,
            (e1 - 1) as nat,
        )) * pow_nat(b, e2)) by (nonlinear_arith);
    }
}

/// Choosing more elements than available yields zero.
pub proof fn lemma_choose_past_end(n: nat, k: nat)
    requires
        k > n,
    ensures
        choose_nat(n, k) == 0,
    decreases n,
{
    if n > 0 {
        lemma_choose_past_end((n - 1) as nat, (k - 1) as nat);
        lemma_choose_past_end((n - 1) as nat, k);
    }
}

/// Choosing everything can be done exactly one way.
pub proof fn lemma_choose_all(n: nat)
    ensures
        choose_nat(n, n) == 1,
    decreases n,
{
    if n > 0 {
        lemma_choose_all((n - 1) as nat);
        lemma_choose_past_end((n - 1) as nat, n);
    }
}

/// The factorial form of the binomial coefficient:
/// `C(n,k) * k! * (n-k)! == n!`.
pub proof fn lemma_choose_fact(n: nat, k: nat)
    requires
        k <= n,
    ensures
        choose_nat(n, k) * (fact(k) * fact((n - k) as nat)) == fact(n),
    decreases n,
{
    if k == 0 {
        assert(1 * (1 * fact(n)) == fact(n)) by (nonlinear_arith);
    } else if k == n {
        lemma_choose_all(n);
        lemma_fact_positive(n);
        assert(1 * (fact(n) * 1) == fact(n)) by (nonlinear_arith);
    } else {
        let n1 = (n - 1) as nat;
        let k1 = (k - 1) as nat;
        let c1 = choose_nat(n1, k1);
        let c2 = choose_nat(n1, k);
        lemma_choose_fact(n1, k1);
        lemma_choose_fact(n1, k);
        assert(choose_nat(n, k) == c1 + c2);
        assert(fact(k) == k * fact(k1));
        assert(fact((n - k) as nat) == (n - k) * fact((n1 - k) as nat));
        assert(c1 * (fact(k) * fact((n - k) as nat)) == k * (c1 * (fact(k1) * fact(
            (n1 - k1) as nat,
        )))) by (nonlinear_arith)
            requires
                fact(k) == k * fact(k1),
                (n1 - k1) as nat == (n - k) as nat,
        ;
        assert(c2 * (fact(k) * fact((n - k) as nat)) == (n - k) * (c2 * (fact(k) * fact(
            (n1 - k) as nat,
        )))) by (nonlinear_arith)
            requires
                fact((n - k) as nat) == (n - k) * fact((n1 - k) as nat),
        ;
        assert((c1 + c2) * (fact(k) * fact((n - k) as nat)) == c1 * (fact(k) * fact(
            (n - k) as nat,
        )) + c2 * (fact(k) * fact((n - k) as nat))) by (nonlinear_arith);
        assert(k * fact(n1) + (n - k) * fact(n1) == n * fact(n1)) by (nonlinear_arith);
    }
}

/// The binomial coefficient is symmetric: `C(n,k) == C(n,n-k)`.
pub proof fn lemma_choose_symmetry(n: nat, k: nat)
    requires
        k <= n,
    ensures
        choose_nat(n, k) == choose_nat(n, (n - k) as nat),
    decreases n,
{
    if n == 0 {
    } else if k == 0 {
        lemma_choose_all(n);
    } else if k == n {
        lemma_choose_all(n);
    } else {
        let n1 = (n - 1) as nat;
        lemma_choose_symmetry(n1, (k - 1) as nat);
        lemma_choose_symmetry(n1, k);
        assert((n1 - (k - 1)) as nat == (n - k) as nat);
        assert((n1 - k) as nat == ((n - k) - 1) as nat);
    }
}

/// One term of the binomial expansion: `C(n,k) * a^k * c^(n-k)`, zero once
/// `k` passes `n`.
pub open spec fn binom_term(n: nat, k: nat, a: nat, c: nat) -> nat {
    if k <= n {
        choose_nat(n, k) * pow_nat(a, k) * pow_nat(c, (n - k) as nat)
    } else {
        0
    }
}

/// The sum of the binomial expansion terms for `k` below `j`.
pub open spec fn binom_sum(n: nat, j: nat, a: nat, c: nat) -> nat
    decreases j,
{
    if j == 0 {
        0
    } else {
        binom_sum(n, (j - 1) as nat, a, c) + binom_term(n, (j - 1) as nat, a, c)
    }
}

/// Pascal's rule, pushed through partial sums: a partial sum over row `n+1`
/// splits into `a` times the sum of the previous terms of row `n` plus `c`
/// times the partial sum of row `n`.
proof fn lemma_binom_sum_pascal(n: nat, j: nat, a: nat, c: nat)
    requires
        j <= n + 1,
    ensures
        binom_sum(n + 1, j + 1, a, c) == a * binom_sum(n, j, a, c) + c * binom_sum(
            n,
            j + 1,
            a,
            c,
        ),
    decreases j,
{
    if j == 0 {
        assert(binom_sum(n + 1, 0, a, c) == 0);
        assert(binom_sum(n, 0, a, c) == 0);
        assert(binom_sum(n + 1, 1, a, c) == 0 + binom_term(n + 1, 0, a, c));
        assert(choose_nat(n + 1, 0) == 1 && pow_nat(a, 0) == 1);
        assert(binom_term(n + 1, 0, a, c) == 1 * 1 * pow_nat(c, n + 1));
        assert(binom_sum(n, 1, a, c) == 1 * 1 * pow_nat(c, n));
        assert(pow_nat(c, n + 1) == c * pow_nat(c, n));
        assert(1 * 1 * pow_nat(c, n + 1) == a * 0 + c * (1 * 1 * pow_nat(c, n)))
            by (nonlinear_arith)
            requires
                pow_nat(c, n + 1) == c * pow_nat(c, n),
        ;
    } else {
        let j1 = (j - 1) as nat;
        lemma_binom_sum_pascal(n, j1, a, c);
        // The new term on the left is C(n+1,j) a^j c^(n+1-j); Pascal splits
        // its coefficient.
        assert(choose_nat(n + 1, j) == choose_nat(n, j1) + choose_nat(n, j));
        let ta = binom_term(n, j1, a, c);
        let tc = binom_term(n, j, a, c);
        assert(pow_nat(a, j) == a * pow_nat(a, j1));
        if j <= n {
            assert(pow_nat(c, ((n + 1) - j) as nat) == c * pow_nat(c, (n - j) as nat));
            let cj1 = choose_nat(n, j1);
            let cj = choose_nat(n, j);
            let pa = pow_nat(a, j);
            let pa1 = pow_nat(a, j1);
            let pc1 = pow_nat(c, ((n + 1) - j) as nat);
            let pc0 = pow_nat(c, (n - j) as nat);
            assert((cj1 + cj) * pa * pc1 == cj1 * pa * pc1 + cj * pa * pc1) by (nonlinear_arith);
            assert(cj1 * pa * pc1 == a * (cj1 * pa1 * pc1)) by (nonlinear_arith)
                requires
                    pa == a * pa1,
            ;
            assert(cj * pa * pc1 == c * (cj * pa * pc0)) by (nonlinear_arith)
                requires
                    pc1 == c * pc0,
            ;
            assert(binom_term(n + 1, j, a, c) == a * ta + c * tc);
        } else {
            // j == n + 1: the row-n terms at index j vanish.
            assert(j == n + 1);
            lemma_choose_past_end(n, j);
            assert(tc == 0);
            assert(choose_nat(n + 1, j) == choose_nat(n, j1));
            assert(pow_nat(c, 0) == 1);
            assert(binom_term(n + 1, j, a, c) == a * ta + c * tc) by (nonlinear_arith)
                requires
                    binom_term(n + 1, j, a, c) == choose_nat(n, j1) * pow_nat(a, j) * 1,
                    tc == 0,
                    ta == choose_nat(n, j1) * pow_nat(a, j1) * 1,
                    pow_nat(a, j) == a * pow_nat(a, j1),
            ;
        }
        assert(a * (binom_sum(n, j1, a, c) + ta) == a * binom_sum(n, j1, a, c) + a * ta)
            by (nonlinear_arith);
        assert(c * (binom_sum(n, j, a, c) + tc) == c * binom_sum(n, j, a, c) + c * tc)
            by (nonlinear_arith);
    }
}

/// The binomial theorem over the naturals: the full expansion sums to
/// `(a + c)^n`.
pub proof fn lemma_binomial_theorem(n: nat, a: nat, c: nat)
    ensures
        binom_sum(n, n + 1, a, c) == pow_nat((a + c) as nat, n),
    decreases n,
{
    if n == 0 {
        assert(binom_sum(0, 0, a, c) == 0);
        assert(binom_sum(0, 1, a, c) == 0 + binom_term(0, 0, a, c));
        assert(choose_nat(0, 0) == 1 && pow_nat(a, 0) == 1 && pow_nat(c, 0) == 1);
        assert(binom_term(0, 0, a, c) == 1 * 1 * 1);
        assert(pow_nat((a + c) as nat, 0) == 1);
    } else {
        let n1 = (n - 1) as nat;
        lemma_binomial_theorem(n1, a, c);
        lemma_binom_sum_pascal(n1, n, a, c);
        lemma_choose_past_end(n1, n);
        assert(binom_term(n1, n, a, c) == 0);
        assert(binom_sum(n1, n + 1, a, c) == binom_sum(n1, n, a, c));
        assert(pow_nat((a + c) as nat, n) == (a + c) * pow_nat((a + c) as nat, n1));
        assert(a * pow_nat((a + c) as nat, n1) + c * pow_nat((a + c) as nat, n1) == (a + c)
            * pow_nat((a + c) as nat, n1)) by (nonlinear_arith);
    }
}

/// The factorial of `hi` splits as the factorial of `lo` times the product of
/// the range above it.
pub proof fn lemma_fact_split(lo: nat, hi: nat)
    requires
        lo <= hi,
    ensures
        fact(lo) * prod_range(lo, hi) == fact(hi),
    decreases hi - lo,
{
    if lo == hi {
        assert(prod_range(lo, hi) == 1);
        assert(fact(lo) * 1 == fact(lo));
    } else {
        lemma_fact_split(lo, (hi - 1) as nat);
        assert(prod_range(lo, hi) == prod_range(lo, (hi - 1) as nat) * hi);
        assert(fact(lo) * (prod_range(lo, (hi - 1) as nat) * hi) == (fact(lo) * prod_range(
            lo,
            (hi - 1) as nat,
        )) * hi) by (nonlinear_arith);
        assert(fact(lo) * prod_range(lo, hi) == fact((hi - 1) as nat) * hi);
        assert(hi * fact((hi - 1) as nat) == fact((hi - 1) as nat) * hi) by (nonlinear_arith);
        assert(fact(hi) == hi * fact((hi - 1) as nat));
    }
}

} // verus!
