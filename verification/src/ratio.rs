//! Non-negative rational values as numerator/denominator pairs of big
//! unsigned integers. The engine deliberately leaves results unreduced, so a
//! value is specified up to cross-multiplication equality (`rat_eq`), and
//! addition is performed over the least common denominator to limit the
//! growth of intermediate integers.

use vstd::prelude::*;

use crate::arith::pow_nat;
use crate::bigint::{
    big_add, big_clone, big_div, big_eq, big_from_u64, big_lcm, big_le, big_mul, big_pow, big_rem,
    big_sub, big_to_u64, is_lcm, nat_of,
};
use num_bigint::BigUint;

verus! {

/// The pairs stand for the same rational value (denominators nonzero).
pub open spec fn rat_eq(x: (nat, nat), y: (nat, nat)) -> bool {
    x.0 * y.1 == y.0 * x.1
}

/// The value of `x` is at most the value of `y` (denominators nonzero).
pub open spec fn rat_le(x: (nat, nat), y: (nat, nat)) -> bool {
    x.0 * y.1 <= y.0 * x.1
}

/// Exact rational addition by cross-multiplication.
pub open spec fn rat_add(x: (nat, nat), y: (nat, nat)) -> (nat, nat) {
    (x.0 * y.1 + y.0 * x.1, x.1 * y.1)
}

/// Exact rational multiplication.
pub open spec fn rat_mul(x: (nat, nat), y: (nat, nat)) -> (nat, nat) {
    (x.0 * y.0, x.1 * y.1)
}

/// The reciprocal: numerator and denominator swapped.
pub open spec fn rat_inv(x: (nat, nat)) -> (nat, nat) {
    (x.1, x.0)
}

/// Both components positive.
pub open spec fn rat_pos(x: (nat, nat)) -> bool {
    x.0 >= 1 && x.1 >= 1
}

/// Cross-multiplication equality is transitive as long as the middle pair
/// has a nonzero denominator.
pub proof fn lemma_rat_eq_trans(a: (nat, nat), b: (nat, nat), c: (nat, nat))
    requires
        rat_eq(a, b),
        rat_eq(b, c),
        b.1 >= 1,
    ensures
        rat_eq(a, c),
{
    assert(a.0 * c.1 == c.0 * a.1) by (nonlinear_arith)
        requires
            a.0 * b.1 == b.0 * a.1,
            b.0 * c.1 == c.0 * b.1,
            b.1 >= 1,
    ;
}

/// Replacing the left operand of an exact rational addition by an equal pair
/// yields an equal sum.
pub proof fn lemma_rat_add_congruence_left(a: (nat, nat), a2: (nat, nat), b: (nat, nat))
    requires
        rat_eq(a, a2),
    ensures
        rat_eq(rat_add(a, b), rat_add(a2, b)),
{
    assert((a.0 * b.1 + b.0 * a.1) * (a2.1 * b.1) == (a2.0 * b.1 + b.0 * a2.1) * (a.1 * b.1))
        by (nonlinear_arith)
        requires
            a.0 * a2.1 == a2.0 * a.1,
    ;
}

/// Replacing both operands of an exact rational multiplication by equal
/// pairs yields an equal product.
pub proof fn lemma_rat_mul_congruence(a: (nat, nat), a2: (nat, nat), b: (nat, nat), b2: (nat, nat))
    requires
        rat_eq(a, a2),
        rat_eq(b, b2),
    ensures
        rat_eq(rat_mul(a, b), rat_mul(a2, b2)),
{
    assert((a.0 * b.0) * (a2.1 * b2.1) == (a2.0 * b2.0) * (a.1 * b.1)) by (nonlinear_arith)
        requires
            a.0 * a2.1 == a2.0 * a.1,
            b.0 * b2.1 == b2.0 * b.1,
    ;
}

/// Swapping numerator and denominator of equal pairs keeps them equal.
pub proof fn lemma_rat_inv_congruence(a: (nat, nat), a2: (nat, nat))
    requires
        rat_eq(a, a2),
    ensures
        rat_eq(rat_inv(a), rat_inv(a2)),
{
    assert(a.1 * a2.0 == a2.1 * a.0) by (nonlinear_arith)
        requires
            a.0 * a2.1 == a2.0 * a.1,
    ;
}

/// A non-negative rational number: a numerator and a denominator, both
/// arbitrary-precision unsigned integers, not necessarily in lowest terms.
pub struct Ratio {
    numer: BigUint,
    denom: BigUint,
}

impl View for Ratio {
    type V = (nat, nat);

    closed spec fn view(&self) -> (nat, nat) {
        (nat_of(self.numer), nat_of(self.denom))
    }
}

impl Clone for Ratio {
    fn clone(&self) -> (r: Self)
        ensures
            r@ == self@,
    {
        Ratio { numer: big_clone(&self.numer), denom: big_clone(&self.denom) }
    }
}

impl Ratio {
    /// A rational from its raw parts; nothing is reduced or checked, so an
    /// invalid request (denominator zero) can be represented and rejected
    /// later.
    pub fn new(numer: BigUint, denom: BigUint) -> (r: Self)
        ensures
            r@ == (nat_of(numer), nat_of(denom)),
    {
        Ratio { numer, denom }
    }

    /// The denominator is nonzero: the pair stands for a rational value.
    pub open spec fn wf(&self) -> bool {
        self@.1 >= 1
    }

    pub fn into_parts(self) -> (r: (BigUint, BigUint))
        ensures
            nat_of(r.0) == self@.0,
            nat_of(r.1) == self@.1,
    {
        (self.numer, self.denom)
    }

    pub fn numer(&self) -> (r: &BigUint)
        ensures
            nat_of(*r) == self@.0,
    {
        &self.numer
    }

    pub fn denom(&self) -> (r: &BigUint)
        ensures
            nat_of(*r) == self@.1,
    {
        &self.denom
    }

    /// Whether the two pairs stand for the same rational value, decided by
    /// cross-multiplication; neither pair needs to be in lowest terms.
    pub fn same_value(&self, other: &Ratio) -> (r: bool)
        ensures
            r == rat_eq(self@, other@),
    {
        let left = big_mul(&self.numer, &other.denom);
        let right = big_mul(&other.numer, &self.denom);
        big_eq(&left, &right)
    }
}

/// The whole number whose last `prec` decimal digits are the `prec`-digit
/// decimal fraction expansion of the value `x`: `floor(x * 10^prec)`.
pub open spec fn scaled_floor(x: (nat, nat), prec: nat) -> nat {
    (x.0 * pow_nat(10, prec)) / x.1
}

/// Digit `i` (counted from the most significant) of the `prec`-digit decimal
/// fraction expansion of the value `x`.
pub open spec fn frac_digit(x: (nat, nat), prec: nat, i: nat) -> nat {
    (scaled_floor(x, prec) / pow_nat(10, (prec - 1 - i) as nat)) % 10
}

/// The `prec` decimal fraction digits of the value `x`, most significant
/// first.
pub open spec fn frac_digits(x: (nat, nat), prec: nat) -> Seq<nat> {
    Seq::new(prec, |i: int| frac_digit(x, prec, i as nat))
}

/// Scaling and flooring respects rational equality: pairs that stand for the
/// same value have the same whole part after scaling by any factor, and so
/// the same decimal digits.
pub proof fn lemma_scaled_floor_eq(x: (nat, nat), y: (nat, nat), t: nat)
    requires
        rat_eq(x, y),
        x.1 >= 1,
        y.1 >= 1,
    ensures
        (x.0 * t) / x.1 == (y.0 * t) / y.1,
{
    vstd::arithmetic::div_mod::lemma_div_multiples_vanish_quotient(
        y.1 as int,
        (x.0 * t) as int,
        x.1 as int,
    );
    vstd::arithmetic::div_mod::lemma_div_multiples_vanish_quotient(
        x.1 as int,
        (y.0 * t) as int,
        y.1 as int,
    );
    assert(y.1 * (x.0 * t) == x.1 * (y.0 * t)) by (nonlinear_arith)
        requires
            x.0 * y.1 == y.0 * x.1,
    ;
    assert(y.1 * x.1 == x.1 * y.1) by (nonlinear_arith);
}

/// Equal values render to equal digit sequences.
pub proof fn lemma_frac_digits_eq(x: (nat, nat), y: (nat, nat), prec: nat)
    requires
        rat_eq(x, y),
        x.1 >= 1,
        y.1 >= 1,
    ensures
        frac_digits(x, prec) =~= frac_digits(y, prec),
{
    lemma_scaled_floor_eq(x, y, pow_nat(10, prec));
}

impl Ratio {
    /// The `precision` decimal digits that follow the decimal point in the
    /// expansion of this value, most significant first: digit `i` is the
    /// `i+1`-th fractional decimal of `numer / denom`. Whole parts, if any,
    /// are discarded.
    pub fn decimal_digits(&self, precision: usize) -> (digits: Vec<u8>)
        requires
            self.wf(),
            precision <= u32::MAX,
        ensures
            digits@.len() == precision as nat,
            forall|i: int|
                0 <= i < precision as int ==> digits@[i] as nat == frac_digit(
                    self@,
                    precision as nat,
                    i as nat,
                ),
    {
        let ghost x = self@;
        let ghost all = scaled_floor(x, precision as nat);
        let ten = big_from_u64(10);
        let pow10 = big_pow(&ten, precision as u32);
        let scaled = big_mul(self.numer(), &pow10);
        let mut value = big_div(&scaled, self.denom());
        proof {
            assert(nat_of(value) / 1 == nat_of(value));
            assert(pow_nat(10, 0) == 1);
        }
        // Low digits first: each round peels one decimal digit off the
        // scaled whole part.
        let mut low_first: Vec<u8> = Vec::new();
        let mut j: usize = 0;
        while j < precision
            invariant
                j <= precision,
                low_first@.len() == j as nat,
                nat_of(ten) == 10,
                all == scaled_floor(x, precision as nat),
                nat_of(value) == all / pow_nat(10, j as nat),
                forall|i: int|
                    0 <= i < j as int ==> low_first@[i] as nat == (all / pow_nat(10, i as nat))
                        % 10,
            decreases precision - j,
        {
            let d = big_rem(&value, &ten);
            proof {
                vstd::arithmetic::div_mod::lemma_mod_bound(nat_of(value) as int, 10);
            }
            let d64 = big_to_u64(&d);
            low_first.push(d64 as u8);
            value = big_div(&value, &ten);
            proof {
                crate::arith::lemma_pow_nat_positive(10, j as nat);
                vstd::arithmetic::div_mod::lemma_div_denominator(
                    all as int,
                    pow_nat(10, j as nat) as int,
                    10,
                );
                assert(pow_nat(10, (j + 1) as nat) == 10 * pow_nat(10, j as nat));
            }
            j = j + 1;
        }
        // Reverse into most-significant-first order.
        let mut digits: Vec<u8> = Vec::new();
        let mut i: usize = 0;
        while i < precision
            invariant
                i <= precision,
                low_first@.len() == precision as nat,
                digits@.len() == i as nat,
                all == scaled_floor(x, precision as nat),
                forall|t: int|
                    0 <= t < precision as int ==> low_first@[t] as nat == (all / pow_nat(
                        10,
                        t as nat,
                    )) % 10,
                forall|t: int|
                    0 <= t < i as int ==> digits@[t] as nat == frac_digit(
                        x,
                        precision as nat,
                        t as nat,
                    ),
            decreases precision - i,
        {
            digits.push(low_first[precision - 1 - i]);
            i = i + 1;
        }
        digits
    }
}

/// The safe difference primitive all unsigned subtraction of magnitudes goes
/// through: it compares the operands first, so the subtraction can never
/// underflow, and reports the magnitude of the difference together with
/// whether the left operand was the larger one.
pub(crate) fn abs_diff(a: &BigUint, b: &BigUint) -> (r: (BigUint, bool))
    ensures
        nat_of(r.0) == if nat_of(*a) >= nat_of(*b) {
            nat_of(*a) - nat_of(*b)
        } else {
            nat_of(*b) - nat_of(*a)
        },
        r.1 == (nat_of(*a) >= nat_of(*b)),
{
    if big_le(b, a) {
        (big_sub(a, b), true)
    } else {
        (big_sub(b, a), false)
    }
}

/// The sum of `lhs_numer / lhs_denom` and `rhs_numer / rhs_denom` over their
/// least common denominator: each numerator is scaled by the cofactor of its
/// denominator in the LCM, and the scaled numerators are added.
pub(crate) fn add_ratios_raw_raw(
    lhs_numer: BigUint,
    lhs_denom: BigUint,
    rhs_numer: BigUint,
    rhs_denom: BigUint,
) -> (r: (BigUint, BigUint))
    requires
        nat_of(lhs_denom) >= 1,
        nat_of(rhs_denom) >= 1,
    ensures
        is_lcm(nat_of(lhs_denom), nat_of(rhs_denom), nat_of(r.1)),
        rat_eq(
            (nat_of(r.0), nat_of(r.1)),
            rat_add((nat_of(lhs_numer), nat_of(lhs_denom)), (nat_of(rhs_numer), nat_of(rhs_denom))),
        ),
        nat_of(lhs_numer) >= 1 || nat_of(rhs_numer) >= 1 ==> nat_of(r.0) >= 1,
{
    let ghost ln = nat_of(lhs_numer);
    let ghost ld = nat_of(lhs_denom);
    let ghost rn = nat_of(rhs_numer);
    let ghost rd = nat_of(rhs_denom);

    let common_denom = big_lcm(&lhs_denom, &rhs_denom);
    let ghost c = nat_of(common_denom);

    let lhs_multiplier = big_div(&common_denom, &lhs_denom);
    let rhs_multiplier = big_div(&common_denom, &rhs_denom);
    let ghost lm = nat_of(lhs_multiplier);
    let ghost rm = nat_of(rhs_multiplier);

    proof {
        vstd::arithmetic::div_mod::lemma_fundamental_div_mod(c as int, ld as int);
        vstd::arithmetic::div_mod::lemma_fundamental_div_mod(c as int, rd as int);
        assert(c == ld * lm);
        assert(c == rd * rm);
        assert(lm >= 1 && rm >= 1) by (nonlinear_arith)
            requires
                c == ld * lm,
                c == rd * rm,
                c >= 1,
        ;
    }

    let scaled_lhs = big_mul(&lhs_numer, &lhs_multiplier);
    let scaled_rhs = big_mul(&rhs_numer, &rhs_multiplier);
    let sum = big_add(&scaled_lhs, &scaled_rhs);

    proof {
        assert((ln * lm + rn * rm) * (ld * rd) == (ln * rd + rn * ld) * c) by (nonlinear_arith)
            requires
                c == ld * lm,
                c == rd * rm,
        ;
        assert(ln >= 1 || rn >= 1 ==> ln * lm + rn * rm >= 1) by (nonlinear_arith)
            requires
                lm >= 1,
                rm >= 1,
        ;
    }

    (sum, common_denom)
}

} // verus!
