//! Dividing one factor out of a number as often as it goes.

use vstd::arithmetic::div_mod::*;
use vstd::arithmetic::mul::*;
use vstd::arithmetic::power::*;
use vstd::prelude::*;

verus! {

/// How many times `factor` divides `value`.
pub open spec fn multiplicity(factor: nat, value: nat) -> nat
    decreases value,
    via multiplicity_decreases
{
    if factor >= 2 && value >= 1 && value % factor == 0 {
        1 + multiplicity(factor, value / factor)
    } else {
        0
    }
}

/// What is left of `value` once `factor` has been divided out as often as it
/// goes.
pub open spec fn cofactor(factor: nat, value: nat) -> nat
    decreases value,
    via cofactor_decreases
{
    if factor >= 2 && value >= 1 && value % factor == 0 {
        cofactor(factor, value / factor)
    } else {
        value
    }
}

/// Dividing a positive multiple of `factor` by it gives a smaller positive
/// number.
proof fn lemma_quotient_smaller(factor: nat, value: nat)
    requires
        factor >= 2,
        value >= 1,
        value % factor == 0,
    ensures
        value == factor * (value / factor),
        1 <= value / factor < value,
{
    let quotient = value / factor;
    lemma_fundamental_div_mod(value as int, factor as int);
    assert(quotient >= 1 && quotient < value) by (nonlinear_arith)
        requires
            value == factor * quotient,
            factor >= 2,
            value >= 1,
    ;
}

#[via_fn]
proof fn multiplicity_decreases(factor: nat, value: nat) {
    if factor >= 2 && value >= 1 && value % factor == 0 {
        lemma_quotient_smaller(factor, value);
    }
}

#[via_fn]
proof fn cofactor_decreases(factor: nat, value: nat) {
    if factor >= 2 && value >= 1 && value % factor == 0 {
        lemma_quotient_smaller(factor, value);
    }
}

/// An exponent is smaller than the power it produces.
proof fn lemma_exponent_below_power(base: nat, exponent: nat)
    requires
        base >= 2,
    ensures
        exponent < pow(base as int, exponent),
    decreases exponent,
{
    reveal(pow);
    if exponent > 0 {
        lemma_exponent_below_power(base, (exponent - 1) as nat);
        let below = pow(base as int, (exponent - 1) as nat);
        assert(base * below >= 2 * below) by (nonlinear_arith)
            requires
                base >= 2,
                below >= 0,
        ;
    }
}

/// `value` is `cofactor * factor^multiplicity`, and the cofactor takes no
/// further `factor`.
pub proof fn lemma_factorization(factor: nat, value: nat)
    requires
        factor >= 2,
        value >= 1,
    ensures
        value == cofactor(factor, value) * pow(factor as int, multiplicity(factor, value)),
        cofactor(factor, value) >= 1,
        cofactor(factor, value) % factor != 0,
    decreases value,
{
    reveal(pow);
    if value % factor == 0 {
        let quotient = value / factor;
        lemma_quotient_smaller(factor, value);
        lemma_factorization(factor, quotient);
        let rest = cofactor(factor, quotient);
        let power = pow(factor as int, multiplicity(factor, quotient));
        assert(rest * (factor * power) == factor * (rest * power)) by (nonlinear_arith);
    }
}

/// Neither the exponent nor the remainder exceeds the value.
pub proof fn lemma_factorization_bounds(factor: nat, value: nat)
    requires
        factor >= 2,
        value >= 1,
    ensures
        multiplicity(factor, value) < value,
        1 <= cofactor(factor, value) <= value,
{
    lemma_factorization(factor, value);
    let count = multiplicity(factor, value);
    let rest = cofactor(factor, value);
    let power = pow(factor as int, count);
    lemma_exponent_below_power(factor, count);
    assert(rest <= value && power <= value) by (nonlinear_arith)
        requires
            value == rest * power,
            rest >= 1,
            power >= 1,
    ;
}

/// Only one pair of exponent and remainder writes `value` as
/// `rest * factor^count` with `rest` free of `factor`.
pub proof fn lemma_factorization_unique(factor: nat, value: nat, count: nat, rest: nat)
    requires
        factor >= 2,
        value == rest * pow(factor as int, count),
        rest % factor != 0,
    ensures
        count == multiplicity(factor, value),
        rest == cofactor(factor, value),
    decreases count,
{
    reveal(pow);
    lemma_small_mod(0, factor);
    if count == 0 {
        assert(value == rest);
    } else {
        let below = pow(factor as int, (count - 1) as nat);
        lemma_pow_positive(factor as int, (count - 1) as nat);
        let quotient = rest * below;
        assert(rest * (factor * below) == factor * quotient) by (nonlinear_arith)
            requires
                quotient == rest * below,
        ;
        assert(value == factor * quotient);
        assert(quotient >= 1) by (nonlinear_arith)
            requires
                quotient == rest * below,
                rest >= 1,
                below >= 1,
        ;
        lemma_mod_multiples_basic(quotient, factor as int);
        lemma_div_multiples_vanish(quotient, factor as int);
        lemma_mul_is_commutative(quotient, factor as int);
        assert(value % factor == 0);
        assert(value / factor == quotient);
        lemma_factorization_unique(factor, quotient as nat, (count - 1) as nat, rest);
    }
}

/// Divides `factor` out of `value` as often as it goes, and returns how often
/// that was together with what is left.
pub fn num_factors(factor: usize, value: usize) -> (found: (usize, usize))
    requires
        factor >= 2,
        value >= 1,
    ensures
        found.0 == multiplicity(factor as nat, value as nat),
        found.1 == cofactor(factor as nat, value as nat),
        value == found.1 * pow(factor as int, found.0 as nat),
        found.1 >= 1,
        found.1 % factor != 0,
{
    let mut count: usize = 0;
    let mut rest: usize = value;
    proof {
        reveal(pow);
        lemma_small_mod(0, factor as nat);
    }
    while rest % factor == 0
        invariant
            factor >= 2,
            value >= 1,
            rest >= 1,
            value == rest * pow(factor as int, count as nat),
            multiplicity(factor as nat, value as nat) == count + multiplicity(
                factor as nat,
                rest as nat,
            ),
            cofactor(factor as nat, value as nat) == cofactor(factor as nat, rest as nat),
        decreases rest,
    {
        proof {
            reveal(pow);
            let power = pow(factor as int, count as nat);
            let quotient = (rest / factor) as int;
            lemma_pow_positive(factor as int, count as nat);
            lemma_exponent_below_power(factor as nat, count as nat);
            lemma_quotient_smaller(factor as nat, rest as nat);
            assert(power <= value) by (nonlinear_arith)
                requires
                    value == rest * power,
                    rest >= 1,
                    power >= 1,
            ;
            assert((factor * quotient) * power == quotient * (factor * power))
                by (nonlinear_arith);
        }
        rest = rest / factor;
        count = count + 1;
    }
    (count, rest)
}

} // verus!
