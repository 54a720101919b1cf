//! The lengths that can be transformed: those that radices 4, 3 and 2 split
//! without a remainder.

use crate::factor::{cofactor, lemma_factorization, lemma_factorization_unique, multiplicity};
use vstd::arithmetic::div_mod::*;
use vstd::arithmetic::power::*;
use vstd::prelude::*;

verus! {

/// `4^fours * 3^threes * 2^twos`.
pub open spec fn smooth(fours: nat, threes: nat, twos: nat) -> int {
    pow(4, fours) * pow(3, threes) * pow(2, twos)
}

/// A length is supported if it is a product of powers of 4, 3 and 2.
pub open spec fn supported(length: nat) -> bool {
    exists|fours: nat, threes: nat, twos: nat| length == #[trigger] smooth(fours, threes, twos)
}

/// What is left of a length after every 4, then every 3, then every 2 has
/// been divided out of it.
pub open spec fn residue(length: nat) -> nat {
    cofactor(2, cofactor(3, cofactor(4, length)))
}

/// A power of 3 is odd.
proof fn lemma_power_of_three_odd(exponent: nat)
    ensures
        pow(3, exponent) % 2 == 1,
        pow(3, exponent) >= 1,
    decreases exponent,
{
    reveal(pow);
    if exponent > 0 {
        lemma_power_of_three_odd((exponent - 1) as nat);
    }
}

/// Two factors of 2 make one factor of 4, so a power of 2 is a power of 4
/// times at most one 2.
proof fn lemma_pair_twos(twos: nat)
    ensures
        pow(2, twos) == pow(4, twos / 2) * pow(2, twos % 2),
    decreases twos,
{
    reveal(pow);
    if twos >= 2 {
        lemma_pair_twos((twos - 2) as nat);
        let fewer = (twos - 2) as nat;
        assert(pow(2, twos) == 2 * pow(2, (twos - 1) as nat));
        assert(pow(2, (twos - 1) as nat) == 2 * pow(2, fewer));
        assert(twos / 2 == fewer / 2 + 1);
        assert(twos % 2 == fewer % 2);
        assert(pow(4, twos / 2) == 4 * pow(4, fewer / 2));
        assert(2 * (2 * (pow(4, fewer / 2) * pow(2, fewer % 2))) == (4 * pow(4, fewer / 2)) * pow(
            2,
            fewer % 2,
        )) by (nonlinear_arith);
    } else if twos == 1 {
        assert(pow(2, 1) == 2 * pow(2, 0));
        assert(pow(4, 0) == 1);
    } else {
        assert(pow(4, 0) == 1);
    }
}

/// Dividing out 4, then 3, then 2 finds in a supported length as many
/// fours as its twos can be paired up into, all of its threes, and the one
/// two that may be left over; and nothing remains.
pub proof fn lemma_smooth_factors(fours: nat, threes: nat, twos: nat)
    ensures
        smooth(fours, threes, twos) >= 1,
        ({
            let length = smooth(fours, threes, twos) as nat;
            let after_four = cofactor(4, length);
            let after_three = cofactor(3, after_four);
            &&& multiplicity(4, length) == fours + twos / 2
            &&& multiplicity(3, after_four) == threes
            &&& multiplicity(2, after_three) == twos % 2
            &&& residue(length) == 1
        }),
{
    reveal(pow);
    let pairs = twos / 2;
    let single = twos % 2;
    let four_power = pow(4, fours);
    let three_power = pow(3, threes);
    let two_power = pow(2, twos);
    let pair_power = pow(4, pairs);
    let spare_two = pow(2, single);
    lemma_pow_positive(4, fours);
    lemma_pow_positive(4, pairs);
    lemma_pow_positive(2, twos);
    lemma_power_of_three_odd(threes);
    lemma_pair_twos(twos);
    lemma_pow_adds(4, fours, pairs);
    assert(spare_two == 1 || spare_two == 2) by {
        assert(pow(2, 0) == 1);
        assert(pow(2, 1) == 2 * pow(2, 0));
    }
    let length = smooth(fours, threes, twos);
    let after_four = spare_two * three_power;
    assert(length == after_four * pow(4, fours + pairs)) by (nonlinear_arith)
        requires
            length == four_power * three_power * two_power,
            two_power == pair_power * spare_two,
            pow(4, fours + pairs) == four_power * pair_power,
            after_four == spare_two * three_power,
    ;
    assert(after_four >= 1 && after_four % 4 != 0) by {
        if spare_two == 1 {
            assert(after_four == three_power);
        } else {
            assert(after_four == 2 * three_power);
        }
    }
    assert(length >= 1) by (nonlinear_arith)
        requires
            length == after_four * pow(4, fours + pairs),
            after_four >= 1,
            pow(4, fours + pairs) == four_power * pair_power,
            four_power >= 1,
            pair_power >= 1,
    ;
    lemma_factorization_unique(4, length as nat, fours + pairs, after_four as nat);
    assert(after_four == spare_two * pow(3, threes));
    lemma_factorization_unique(3, after_four as nat, threes, spare_two as nat);
    assert(spare_two == 1 * pow(2, single)) by {
        assert(1 * pow(2, single) == pow(2, single));
    }
    lemma_factorization_unique(2, spare_two as nat, single, 1);
}

/// A length is supported exactly if the three divisions leave 1.
pub proof fn lemma_supported_residue(length: nat)
    ensures
        supported(length) <==> residue(length) == 1,
{
    if supported(length) {
        let (fours, threes, twos) = choose|fours: nat, threes: nat, twos: nat|
            length == #[trigger] smooth(fours, threes, twos);
        lemma_smooth_factors(fours, threes, twos);
    }
    if residue(length) == 1 {
        assert(length >= 1);
        let after_four = cofactor(4, length);
        let after_three = cofactor(3, after_four);
        lemma_factorization(4, length);
        lemma_factorization(3, after_four);
        lemma_factorization(2, after_three);
        let fours = multiplicity(4, length);
        let threes = multiplicity(3, after_four);
        let twos = multiplicity(2, after_three);
        let four_power = pow(4, fours);
        let three_power = pow(3, threes);
        let two_power = pow(2, twos);
        assert(length == four_power * three_power * two_power) by (nonlinear_arith)
            requires
                length == after_four * four_power,
                after_four == after_three * three_power,
                after_three == 1 * two_power,
        ;
        assert(length == smooth(fours, threes, twos));
    }
}

/// `divisor` goes into `value` without a remainder.
pub open spec fn divides(divisor: nat, value: nat) -> bool {
    divisor != 0 && value % divisor == 0
}

/// A number with no divisor between 1 and itself.
pub open spec fn is_prime(candidate: nat) -> bool {
    candidate >= 2 && forall|divisor: nat|
        1 < divisor < candidate ==> !#[trigger] divides(divisor, candidate)
}

/// An odd number that divides twice a value divides the value.
proof fn lemma_cancel_two(divisor: int, value: int)
    requires
        divisor >= 1,
        divisor % 2 == 1,
        (2 * value) % divisor == 0,
    ensures
        value % divisor == 0,
{
    let times = (2 * value) / divisor;
    let half = divisor / 2;
    lemma_fundamental_div_mod(2 * value, divisor);
    assert(divisor * times == 2 * (half * times) + times) by (nonlinear_arith)
        requires
            divisor == 2 * half + 1,
    ;
    let quotient = value - half * times;
    assert(times == 2 * quotient);
    assert(value == quotient * divisor) by (nonlinear_arith)
        requires
            2 * value == divisor * times,
            times == 2 * quotient,
    ;
    lemma_mod_multiples_basic(quotient, divisor);
}

/// A number free of 3 that divides three times a value divides the
/// value.
proof fn lemma_cancel_three(divisor: int, value: int)
    requires
        divisor >= 1,
        divisor % 3 != 0,
        (3 * value) % divisor == 0,
    ensures
        value % divisor == 0,
{
    let times = (3 * value) / divisor;
    let third = divisor / 3;
    let over = divisor % 3;
    lemma_fundamental_div_mod(3 * value, divisor);
    assert(divisor * times == 3 * (third * times) + over * times) by (nonlinear_arith)
        requires
            divisor == 3 * third + over,
    ;
    let part = value - third * times;
    assert(over * times == 3 * part);
    let quotient = if over == 1 {
        part
    } else {
        times - part
    };
    assert(times == 3 * quotient) by {
        if over == 2 {
            assert(over * times == 2 * times);
        } else {
            assert(over == 1);
            assert(over * times == times);
        }
    }
    assert(value == quotient * divisor) by (nonlinear_arith)
        requires
            3 * value == divisor * times,
            times == 3 * quotient,
    ;
    lemma_mod_multiples_basic(quotient, divisor);
}

/// No number above 1 that is free of 2 and of 3 divides a product of
/// powers of 4, 3 and 2.
proof fn lemma_smooth_divisor(fours: nat, threes: nat, twos: nat, divisor: nat)
    requires
        divisor >= 2,
        divisor % 2 != 0,
        divisor % 3 != 0,
    ensures
        smooth(fours, threes, twos) % (divisor as int) != 0,
    decreases fours + threes + twos,
{
    reveal(pow);
    let whole = smooth(fours, threes, twos);
    lemma_pow_positive(4, fours);
    lemma_pow_positive(3, threes);
    lemma_pow_positive(2, twos);
    if whole % (divisor as int) == 0 {
        if twos > 0 {
            let less = smooth(fours, threes, (twos - 1) as nat);
            lemma_smooth_factors(fours, threes, (twos - 1) as nat);
            assert(whole == 2 * less) by (nonlinear_arith)
                requires
                    whole == pow(4, fours) * pow(3, threes) * (2 * pow(2, (twos - 1) as nat)),
                    less == pow(4, fours) * pow(3, threes) * pow(2, (twos - 1) as nat),
            ;
            lemma_cancel_two(divisor as int, less);
            lemma_smooth_divisor(fours, threes, (twos - 1) as nat, divisor);
        } else if threes > 0 {
            let less = smooth(fours, (threes - 1) as nat, twos);
            lemma_smooth_factors(fours, (threes - 1) as nat, twos);
            assert(whole == 3 * less) by (nonlinear_arith)
                requires
                    whole == pow(4, fours) * (3 * pow(3, (threes - 1) as nat)) * pow(2, twos),
                    less == pow(4, fours) * pow(3, (threes - 1) as nat) * pow(2, twos),
            ;
            lemma_cancel_three(divisor as int, less);
            lemma_smooth_divisor(fours, (threes - 1) as nat, twos, divisor);
        } else if fours > 0 {
            let less = smooth((fours - 1) as nat, threes, twos);
            lemma_smooth_factors((fours - 1) as nat, threes, twos);
            assert(whole == 2 * (2 * less)) by (nonlinear_arith)
                requires
                    whole == (4 * pow(4, (fours - 1) as nat)) * pow(3, threes) * pow(2, twos),
                    less == pow(4, (fours - 1) as nat) * pow(3, threes) * pow(2, twos),
            ;
            lemma_cancel_two(divisor as int, 2 * less);
            lemma_cancel_two(divisor as int, less);
            lemma_smooth_divisor((fours - 1) as nat, threes, twos, divisor);
        } else {
            assert(whole == 1) by (nonlinear_arith)
                requires
                    whole == pow(4, fours) * pow(3, threes) * pow(2, twos),
                    pow(4, fours) == 1,
                    pow(3, threes) == 1,
                    pow(2, twos) == 1,
            ;
            lemma_small_mod(1, divisor);
        }
    }
}

/// A number above 1 has a prime divisor.
proof fn lemma_prime_divisor(value: nat) -> (prime: nat)
    requires
        value >= 2,
    ensures
        is_prime(prime),
        divides(prime, value),
    decreases value,
{
    if is_prime(value) {
        lemma_mod_self_0(value as int);
        value
    } else {
        let divisor = choose|divisor: nat| 1 < divisor < value && divides(divisor, value);
        let prime = lemma_prime_divisor(divisor);
        lemma_divides_transitive(prime, divisor, value);
        prime
    }
}

/// What divides a divisor of a value divides the value.
proof fn lemma_divides_transitive(inner: nat, middle: nat, value: nat)
    requires
        divides(inner, middle),
        divides(middle, value),
    ensures
        divides(inner, value),
{
    let first = (middle / inner) as int;
    let second = (value / middle) as int;
    lemma_fundamental_div_mod(middle as int, inner as int);
    lemma_fundamental_div_mod(value as int, middle as int);
    assert(value == (first * second) * inner) by (nonlinear_arith)
        requires
            middle == inner * first,
            value == middle * second,
    ;
    lemma_mod_multiples_basic(first * second, inner as int);
}

/// A value times anything is divided by what divides the value.
proof fn lemma_divides_multiple(divisor: nat, value: nat, times: nat)
    requires
        divides(divisor, value),
    ensures
        divides(divisor, value * times),
{
    let quotient = (value / divisor) as int;
    lemma_fundamental_div_mod(value as int, divisor as int);
    assert(value * times == (quotient * times) * divisor) by (nonlinear_arith)
        requires
            value == divisor * quotient,
    ;
    lemma_mod_multiples_basic(quotient * times, divisor as int);
}

/// The supported lengths are the positive numbers that no prime but 2
/// and 3 divides.
pub proof fn lemma_supported_primes(length: nat)
    ensures
        supported(length) <==> length >= 1 && forall|prime: nat|
            is_prime(prime) && #[trigger] divides(prime, length) ==> prime == 2 || prime == 3,
{
    lemma_supported_residue(length);
    if supported(length) {
        let (fours, threes, twos) = choose|fours: nat, threes: nat, twos: nat|
            length == #[trigger] smooth(fours, threes, twos);
        lemma_smooth_factors(fours, threes, twos);
        assert forall|prime: nat|
            is_prime(prime) && #[trigger] divides(prime, length) implies prime == 2 || prime
            == 3 by {
            if prime != 2 && prime != 3 {
                assert(!divides(2, prime));
                assert(!divides(3, prime));
                lemma_smooth_divisor(fours, threes, twos, prime);
            }
        }
    }
    if length >= 1 && (forall|prime: nat|
        is_prime(prime) && #[trigger] divides(prime, length) ==> prime == 2 || prime == 3) {
        let after_four = cofactor(4, length);
        let after_three = cofactor(3, after_four);
        let rest = residue(length);
        lemma_factorization(4, length);
        lemma_factorization(3, after_four);
        lemma_factorization(2, after_three);
        if rest != 1 {
            let prime = lemma_prime_divisor(rest);
            let twos = pow(2, multiplicity(2, after_three));
            let threes = pow(3, multiplicity(3, after_four));
            let fours = pow(4, multiplicity(4, length));
            lemma_pow_positive(2, multiplicity(2, after_three));
            lemma_pow_positive(3, multiplicity(3, after_four));
            lemma_pow_positive(4, multiplicity(4, length));
            lemma_divides_multiple(prime, rest, twos as nat);
            lemma_divides_multiple(prime, after_three, threes as nat);
            lemma_divides_multiple(prime, after_four, fours as nat);
            assert(divides(prime, length));
            assert(divides(prime, rest));
            if prime == 3 {
                assert(after_three % 3 == 0);
            }
        }
    }
}

} // verus!
