//! The capacity threshold of each level of a sketch.
//!
//! A sketch with size parameter `k` and `n` levels gives level `l` the
//! capacity `ceil(0.7^(n - l - 1) * k) + 1`. The quotient is computed exactly,
//! in decimal fixed point, so that the threshold is the same on every machine.

use vstd::prelude::*;
use vstd::arithmetic::div_mod::lemma_fundamental_div_mod_converse;

verus! {

/// `base` raised to `exponent`.
pub open spec fn power(base: nat, exponent: nat) -> nat
    decreases exponent,
{
    if exponent == 0 {
        1
    } else {
        base * power(base, (exponent - 1) as nat)
    }
}

/// The least integer that is at least `numerator / denominator`.
pub open spec fn ceil_div(numerator: nat, denominator: nat) -> nat
    recommends
        denominator > 0,
{
    ((numerator + denominator - 1) / (denominator as int)) as nat
}

/// The capacity of level `level` in a sketch of `num_compactors` levels with
/// size parameter `k`: `ceil(k * (7/10)^(num_compactors - level - 1)) + 1`.
pub open spec fn capacity_spec(k: nat, num_compactors: nat, level: nat) -> nat
    recommends
        level < num_compactors,
{
    let depth = (num_compactors - level - 1) as nat;
    ceil_div(k * power(7, depth), power(10, depth)) + 1
}

/// The number that a little-endian sequence of decimal digits writes.
spec fn digits_value(digits: Seq<u8>) -> nat
    decreases digits.len(),
{
    if digits.len() == 0 {
        0
    } else {
        digits_value(digits.drop_last()) + (digits.last() as nat) * power(
            10,
            (digits.len() - 1) as nat,
        )
    }
}

/// Every entry is a decimal digit.
spec fn all_digits(digits: Seq<u8>) -> bool {
    forall|i: int| 0 <= i < digits.len() ==> digits[i] <= 9
}

/// A power of a positive base is positive.
pub proof fn lemma_power_positive(base: nat, exponent: nat)
    requires
        base > 0,
    ensures
        power(base, exponent) > 0,
    decreases exponent,
{
    if exponent > 0 {
        lemma_power_positive(base, (exponent - 1) as nat);
        assert(base * power(base, (exponent - 1) as nat) > 0) by (nonlinear_arith)
            requires
                base > 0,
                power(base, (exponent - 1) as nat) > 0,
        ;
    }
}

/// A sequence of `n` decimal digits writes a number below `10^n`.
proof fn lemma_digits_value_bound(digits: Seq<u8>)
    requires
        all_digits(digits),
    ensures
        digits_value(digits) < power(10, digits.len()),
    decreases digits.len(),
{
    if digits.len() > 0 {
        let front = digits.drop_last();
        lemma_digits_value_bound(front);
        let unit = power(10, front.len());
        let last = digits.last() as nat;
        assert(digits_value(front) + last * unit < 10 * unit) by (nonlinear_arith)
            requires
                digits_value(front) < unit,
                last <= 9,
        ;
    }
}

/// A sequence of digits writes zero exactly when every digit is zero.
proof fn lemma_digits_value_zero(digits: Seq<u8>)
    ensures
        digits_value(digits) == 0 <==> forall|i: int| 0 <= i < digits.len() ==> digits[i] == 0,
    decreases digits.len(),
{
    if digits.len() > 0 {
        let front = digits.drop_last();
        lemma_digits_value_zero(front);
        let unit = power(10, front.len());
        lemma_power_positive(10, front.len());
        let last = digits.last() as nat;
        assert(last * unit == 0 <==> last == 0) by (nonlinear_arith)
            requires
                unit > 0,
        ;
        if digits_value(digits) == 0 {
            assert forall|i: int| 0 <= i < digits.len() implies digits[i] == 0 by {
                if i < front.len() {
                    assert(front[i] == digits[i]);
                }
            }
        } else if forall|i: int| 0 <= i < digits.len() ==> digits[i] == 0 {
            assert forall|i: int| 0 <= i < front.len() implies front[i] == 0 by {
                assert(front[i] == digits[i]);
            }
        }
    }
}

/// With `numerator == quotient * denominator + remainder` and the remainder
/// below the denominator, the ceiling of the division is the quotient, plus
/// one where the remainder is not zero.
proof fn lemma_ceil_div_of_parts(numerator: nat, denominator: nat, quotient: nat, remainder: nat)
    requires
        numerator == quotient * denominator + remainder,
        remainder < denominator,
    ensures
        ceil_div(numerator, denominator) == quotient + if remainder > 0 { 1nat } else { 0nat },
{
    let shifted = numerator + denominator - 1;
    if remainder > 0 {
        assert(shifted == (quotient + 1) * denominator + (remainder - 1)) by (nonlinear_arith)
            requires
                shifted == numerator + denominator - 1,
                numerator == quotient * denominator + remainder,
        ;
        lemma_fundamental_div_mod_converse(
            shifted,
            denominator as int,
            quotient + 1 as int,
            remainder - 1,
        );
    } else {
        lemma_fundamental_div_mod_converse(
            shifted,
            denominator as int,
            quotient as int,
            denominator - 1,
        );
    }
}

/// Once `k * 7^from` has dropped below `10^from`, it stays below for every
/// larger exponent.
proof fn lemma_stays_below_one(k: nat, from: nat, to: nat)
    requires
        from <= to,
        k * power(7, from) < power(10, from),
    ensures
        k * power(7, to) < power(10, to),
    decreases to - from,
{
    if from < to {
        lemma_stays_below_one(k, from, (to - 1) as nat);
        let sevens = power(7, (to - 1) as nat);
        let tens = power(10, (to - 1) as nat);
        assert(k * (7 * sevens) < 10 * tens) by (nonlinear_arith)
            requires
                k * sevens < tens,
        ;
    }
}

/// One step of the fixed-point scaling by 7/10.
proof fn lemma_scale_step(
    whole: int,
    quotient: int,
    unit: int,
    fraction: int,
    scaled: int,
    carry: int,
    total: int,
    next_quotient: int,
    digit: int,
)
    requires
        whole == quotient * unit + fraction,
        7 * fraction == scaled + carry * unit,
        total == 7 * quotient + carry,
        total == 10 * next_quotient + digit,
    ensures
        7 * whole == next_quotient * (10 * unit) + (scaled + digit * unit),
{
    assert(7 * whole == next_quotient * (10 * unit) + (scaled + digit * unit))
        by (nonlinear_arith)
        requires
            whole == quotient * unit + fraction,
            7 * fraction == scaled + carry * unit,
            total == 7 * quotient + carry,
            total == 10 * next_quotient + digit,
    ;
}

/// A product of `denominator` that reaches `numerator` bounds the ceiling of
/// the division, and the ceiling times the denominator reaches the numerator.
proof fn lemma_ceil_div_bounds(numerator: nat, denominator: nat, bound: nat)
    requires
        denominator > 0,
    ensures
        numerator <= ceil_div(numerator, denominator) * denominator,
        numerator <= bound * denominator ==> ceil_div(numerator, denominator) <= bound,
        numerator > 0 ==> ceil_div(numerator, denominator) >= 1,
{
    let quotient = (numerator / denominator) as nat;
    let remainder = (numerator % denominator) as nat;
    assert(numerator == quotient * denominator + remainder && remainder < denominator) by {
        vstd::arithmetic::div_mod::lemma_fundamental_div_mod(numerator as int, denominator as int);
        vstd::arithmetic::div_mod::lemma_mod_pos_bound(numerator as int, denominator as int);
        assert(denominator * quotient == quotient * denominator) by (nonlinear_arith);
    }
    lemma_ceil_div_of_parts(numerator, denominator, quotient, remainder);
    let ceiling = ceil_div(numerator, denominator);
    assert(numerator <= ceiling * denominator) by (nonlinear_arith)
        requires
            numerator == quotient * denominator + remainder,
            remainder < denominator,
            ceiling == quotient + if remainder > 0 { 1nat } else { 0nat },
    ;
    if numerator <= bound * denominator {
        assert(ceiling <= bound) by (nonlinear_arith)
            requires
                numerator == quotient * denominator + remainder,
                remainder < denominator,
                denominator > 0,
                numerator <= bound * denominator,
                ceiling == quotient + if remainder > 0 { 1nat } else { 0nat },
        ;
    }
    if numerator > 0 {
        assert(ceiling >= 1) by (nonlinear_arith)
            requires
                numerator == quotient * denominator + remainder,
                numerator > 0,
                ceiling == quotient + if remainder > 0 { 1nat } else { 0nat },
        ;
    }
}

/// One more factor of 7/10 never raises the rounded-up product.
proof fn lemma_scaled_ceiling_shrinks(k: nat, depth: nat)
    ensures
        ceil_div(k * power(7, depth + 1), power(10, depth + 1)) <= ceil_div(
            k * power(7, depth),
            power(10, depth),
        ),
{
    let sevens = power(7, depth);
    let tens = power(10, depth);
    lemma_power_positive(10, depth);
    lemma_power_positive(10, depth + 1);
    let ceiling = ceil_div(k * sevens, tens);
    lemma_ceil_div_bounds(k * sevens, tens, ceiling);
    assert(power(7, depth + 1) == 7 * sevens);
    assert(power(10, depth + 1) == 10 * tens);
    assert(k * (7 * sevens) <= ceiling * (10 * tens)) by (nonlinear_arith)
        requires
            k * sevens <= ceiling * tens,
    ;
    lemma_ceil_div_bounds(k * power(7, depth + 1), power(10, depth + 1), ceiling);
}

/// The highest level of a sketch always has capacity `k + 1`.
pub proof fn lemma_top_level_capacity(k: nat, num_compactors: nat)
    requires
        num_compactors >= 1,
    ensures
        capacity_spec(k, num_compactors, (num_compactors - 1) as nat) == k + 1,
{
    lemma_ceil_div_of_parts(k * power(7, 0), power(10, 0), k, 0);
}

/// For a fixed number of levels, capacity does not decrease as the level
/// index increases.
pub proof fn lemma_capacity_nondecreasing(k: nat, num_compactors: nat, lower: nat, upper: nat)
    requires
        lower <= upper < num_compactors,
    ensures
        capacity_spec(k, num_compactors, lower) <= capacity_spec(k, num_compactors, upper),
    decreases upper - lower,
{
    if lower < upper {
        lemma_capacity_nondecreasing(k, num_compactors, lower + 1, upper);
        lemma_scaled_ceiling_shrinks(k, (num_compactors - lower - 2) as nat);
    }
}

/// With `k >= 1` every level has room for at least two elements, and none
/// for more than `k + 1`.
pub proof fn lemma_capacity_range(k: nat, num_compactors: nat, level: nat)
    requires
        k >= 1,
        level < num_compactors,
    ensures
        2 <= capacity_spec(k, num_compactors, level) <= k + 1,
{
    let depth = (num_compactors - level - 1) as nat;
    lemma_power_positive(7, depth);
    lemma_power_positive(10, depth);
    assert(k * power(7, depth) > 0) by (nonlinear_arith)
        requires
            k >= 1,
            power(7, depth) > 0,
    ;
    lemma_ceil_div_bounds(k * power(7, depth), power(10, depth), 0);
    lemma_capacity_nondecreasing(k, num_compactors, level, (num_compactors - 1) as nat);
    lemma_top_level_capacity(k, num_compactors);
}

/// A level keeps its capacity when the sketch gains a level below it: the
/// capacity depends only on the distance to the highest level.
pub proof fn lemma_capacity_by_depth(k: nat, num_compactors: nat, level: nat)
    requires
        level < num_compactors,
    ensures
        capacity_spec(k, num_compactors + 1, level + 1) == capacity_spec(k, num_compactors, level),
{
}

/// Multiplies a little-endian decimal number by seven, keeping its length:
/// what does not fit is handed back as the carry.
fn times_seven(digits: &Vec<u8>) -> (result: (Vec<u8>, u8))
    requires
        all_digits(digits@),
    ensures
        result.0@.len() == digits@.len(),
        all_digits(result.0@),
        result.1 <= 6,
        digits_value(result.0@) + result.1 * power(10, digits@.len()) == 7 * digits_value(
            digits@,
        ),
{
    let mut scaled: Vec<u8> = Vec::new();
    let mut carry: u8 = 0;
    let mut place: usize = 0;
    while place < digits.len()
        invariant
            place <= digits.len(),
            scaled@.len() == place,
            all_digits(digits@),
            all_digits(scaled@),
            carry <= 6,
            digits_value(scaled@) + carry * power(10, place as nat) == 7 * digits_value(
                digits@.take(place as int),
            ),
        decreases digits.len() - place,
    {
        let total: u8 = 7 * digits[place] + carry;
        let digit: u8 = total % 10;
        let next_carry: u8 = total / 10;
        proof {
            let unit = power(10, place as nat);
            let before = digits@.take(place as int);
            let after = digits@.take(place + 1);
            assert(after.drop_last() =~= before);
            assert(after.last() == digits@[place as int]);
            assert(scaled@.push(digit).drop_last() =~= scaled@);
            assert(digits_value(scaled@.push(digit)) == digits_value(scaled@) + digit * unit);
            assert(digits_value(after) == digits_value(before) + digits@[place as int] * unit);
            assert(digits_value(scaled@) + digit * unit + next_carry * (10 * unit) == 7 * (
            digits_value(before) + digits@[place as int] * unit)) by (nonlinear_arith)
                requires
                    digits_value(scaled@) + carry * unit == 7 * digits_value(before),
                    total == 7 * digits@[place as int] + carry,
                    total == 10 * next_carry + digit,
            ;
        }
        scaled.push(digit);
        carry = next_carry;
        place += 1;
    }
    proof {
        assert(digits@.take(digits@.len() as int) =~= digits@);
    }
    (scaled, carry)
}

/// Whether a little-endian decimal number is different from zero.
fn is_nonzero(digits: &Vec<u8>) -> (nonzero: bool)
    ensures
        nonzero == (digits_value(digits@) > 0),
{
    let mut place: usize = 0;
    while place < digits.len()
        invariant
            place <= digits.len(),
            forall|i: int| 0 <= i < place ==> digits@[i] == 0,
        decreases digits.len() - place,
    {
        if digits[place] != 0 {
            proof {
                lemma_digits_value_zero(digits@);
            }
            return true;
        }
        place += 1;
    }
    proof {
        lemma_digits_value_zero(digits@);
    }
    false
}

/// The capacity of level `level` in a sketch of `num_compactors` levels with
/// size parameter `k`.
pub fn capacity(k: usize, num_compactors: usize, level: usize) -> (capacity: usize)
    requires
        level < num_compactors,
        k < usize::MAX,
    ensures
        capacity == capacity_spec(k as nat, num_compactors as nat, level as nat),
{
    let depth: usize = num_compactors - level - 1;
    let mut quotient: usize = k;
    let mut fraction: Vec<u8> = Vec::new();
    let mut step: usize = 0;
    while step < depth && quotient > 0
        invariant
            step <= depth,
            fraction@.len() == step,
            all_digits(fraction@),
            k * power(7, step as nat) == quotient * power(10, step as nat) + digits_value(
                fraction@,
            ),
            quotient <= k,
            (step > 0 && k > 0) ==> quotient < k,
        decreases depth - step,
    {
        let (scaled, carry) = times_seven(&fraction);
        let total: u128 = 7 * (quotient as u128) + (carry as u128);
        let digit: u8 = (total % 10) as u8;
        let next_quotient: usize = (total / 10) as usize;
        let mut next_fraction: Vec<u8> = scaled;
        next_fraction.push(digit);
        proof {
            let unit = power(10, step as nat);
            assert(next_fraction@.drop_last() =~= scaled@);
            assert(digits_value(next_fraction@) == digits_value(scaled@) + digit * unit);
            lemma_scale_step(
                k * power(7, step as nat),
                quotient as int,
                unit as int,
                digits_value(fraction@) as int,
                digits_value(scaled@) as int,
                carry as int,
                total as int,
                next_quotient as int,
                digit as int,
            );
            assert(k * (7 * power(7, step as nat)) == 7 * (k * power(7, step as nat)))
                by (nonlinear_arith);
            if step == 0 {
                assert(digits_value(fraction@) == 0);
                assert(carry == 0);
            }
        }
        quotient = next_quotient;
        fraction = next_fraction;
        step += 1;
    }
    proof {
        lemma_power_positive(10, depth as nat);
        lemma_digits_value_bound(fraction@);
    }
    if step < depth {
        proof {
            assert(quotient * power(10, step as nat) == 0) by (nonlinear_arith)
                requires
                    quotient == 0,
            ;
            lemma_stays_below_one(k as nat, step as nat, depth as nat);
            lemma_ceil_div_of_parts(
                (k as nat) * power(7, depth as nat),
                power(10, depth as nat),
                0,
                (k as nat) * power(7, depth as nat),
            );
            lemma_power_positive(7, depth as nat);
            assert(k > 0 ==> k * power(7, depth as nat) > 0) by (nonlinear_arith)
                requires
                    power(7, depth as nat) > 0,
            ;
            assert(k == 0 ==> k * power(7, depth as nat) == 0) by (nonlinear_arith);
        }
        if k == 0 {
            1
        } else {
            2
        }
    } else {
        let inexact = is_nonzero(&fraction);
        proof {
            lemma_ceil_div_of_parts(
                (k as nat) * power(7, depth as nat),
                power(10, depth as nat),
                quotient as nat,
                digits_value(fraction@),
            );
            if k == 0 {
                assert(k * power(7, depth as nat) == 0) by (nonlinear_arith)
                    requires
                        k == 0,
                ;
            }
        }
        if inexact {
            quotient + 2
        } else {
            quotient + 1
        }
    }
}

} // verus!
