//! Continued fractions over unsigned integers, used to construct rational
//! approximations of constants such as pi.

use vstd::prelude::*;

use crate::bigint::{big_add, big_from_u64, big_mul, nat_of};
use crate::ratio::Ratio;

verus! {

/// The value of the continued fraction `s[0] + 1/(s[1] + 1/(s[2] + ...))` as
/// an unreduced pair, built by structural recursion from the tail inward: a
/// single term stands for itself, and the empty sequence stands for zero.
pub open spec fn cf_value(s: Seq<u64>) -> (nat, nat)
    decreases s.len(),
{
    if s.len() == 0 {
        (0, 1)
    } else if s.len() == 1 {
        (s[0] as nat, 1)
    } else {
        let tail = cf_value(s.subrange(1, s.len() as int));
        ((s[0] as nat) * tail.0 + tail.1, tail.0)
    }
}

/// Every term of the sequence is positive; enough for the continued fraction
/// to have a positive numerator.
pub open spec fn cf_all_positive(s: Seq<u64>) -> bool {
    forall|i: int| 0 <= i < s.len() ==> s[i] >= 1
}

/// A continued fraction over positive terms has a positive value.
pub proof fn lemma_cf_value_pos(s: Seq<u64>)
    requires
        cf_all_positive(s),
        s.len() >= 1,
    ensures
        cf_value(s).0 >= 1,
        cf_value(s).1 >= 1,
    decreases s.len(),
{
    if s.len() == 1 {
        assert(s[0] >= 1);
    } else {
        let tail = s.subrange(1, s.len() as int);
        assert(cf_all_positive(tail));
        lemma_cf_value_pos(tail);
        assert((s[0] as nat) * cf_value(tail).0 >= 1) by (nonlinear_arith)
            requires
                s[0] >= 1,
                cf_value(tail).0 >= 1,
        ;
    }
}

/// A single-term continued fraction stands for that term itself: the value
/// of `[x]` is exactly `x` over one.
pub proof fn lemma_cf_singleton(x: u64)
    ensures
        cf_value(seq![x]) == (x as nat, 1nat),
{
    assert(seq![x].len() == 1);
}

/// The rational value of the continued fraction
/// `terms[0] + 1/(terms[1] + 1/(...))`, accumulated iteratively from the
/// tail inward; the empty sequence yields zero.
pub fn continued_fraction(terms: &Vec<u64>) -> (r: Ratio)
    ensures
        r@ == cf_value(terms@),
        cf_all_positive(terms@) ==> r.wf(),
{
    proof {
        if cf_all_positive(terms@) && terms@.len() >= 1 {
            lemma_cf_value_pos(terms@);
        }
    }
    let len = terms.len();
    if len == 0 {
        return Ratio::new(big_from_u64(0), big_from_u64(1));
    }
    let mut idx = len - 1;
    let mut numer = big_from_u64(terms[idx]);
    let mut denom = big_from_u64(1);
    proof {
        let sub = terms@.subrange(idx as int, terms@.len() as int);
        assert(sub.len() == 1);
        assert(sub[0] == terms@[idx as int]);
    }
    while idx > 0
        invariant
            idx < terms@.len(),
            (nat_of(numer), nat_of(denom)) == cf_value(
                terms@.subrange(idx as int, terms@.len() as int),
            ),
        decreases idx,
    {
        idx = idx - 1;
        let t = big_from_u64(terms[idx]);
        let scaled = big_mul(&t, &numer);
        let new_numer = big_add(&scaled, &denom);
        denom = numer;
        numer = new_numer;
        proof {
            let s = terms@;
            let cur = s.subrange(idx as int, s.len() as int);
            let tail = s.subrange(idx as int + 1, s.len() as int);
            assert(cur.subrange(1, cur.len() as int) =~= tail);
            assert(cur.len() >= 2);
            assert(cur[0] == s[idx as int]);
        }
    }
    proof {
        assert(terms@.subrange(0, terms@.len() as int) =~= terms@);
    }
    Ratio::new(numer, denom)
}

} // verus!
