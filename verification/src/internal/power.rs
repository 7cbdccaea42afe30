//! Powers of two.

use vstd::prelude::*;

verus! {

pub open spec fn is_power_of_two(n: int) -> bool {
    exists|exponent: nat| n == #[trigger] vstd::arithmetic::power2::pow2(exponent)
}

/// The number of values of a `usize`.
pub open spec fn words() -> int {
    usize::MAX + 1
}

/// The smallest power of two that is at least `n`.
pub fn next_power_of_two(n: usize) -> (power: usize)
    requires
        n <= usize::MAX / 2 + 1,
    ensures
        is_power_of_two(power as int),
        power >= n,
        power > 1 ==> power < 2 * n,
        power >= 1,
{
    let mut power: usize = 1;
    proof {
        vstd::arithmetic::power2::lemma2_to64();
        assert(1 == vstd::arithmetic::power2::pow2(0));
    }
    while power < n
        invariant
            is_power_of_two(power as int),
            power >= 1,
            power > 1 ==> power < 2 * n,
            n <= usize::MAX / 2 + 1,
        decreases 2 * n - power,
    {
        proof {
            let exponent = choose|exponent: nat| power == #[trigger] vstd::arithmetic::power2::pow2(exponent);
            vstd::arithmetic::power2::lemma_pow2_unfold((exponent + 1) as nat);
            assert(2 * power == vstd::arithmetic::power2::pow2((exponent + 1) as nat));
        }
        power = power * 2;
    }
    power
}

/// A power of two that fits in a word divides the number of words.
pub proof fn lemma_power_divides_words(power: int)
    requires
        is_power_of_two(power),
        power <= words(),
    ensures
        power > 0,
        words() % power == 0,
        words() == power * (words() / power),
{
    vstd::arithmetic::power2::lemma2_to64();
    let exponent = choose|exponent: nat| power == #[trigger] vstd::arithmetic::power2::pow2(exponent);
    let bits: nat = if words() == vstd::arithmetic::power2::pow2(32) { 32 } else { 64 };
    assert(words() == vstd::arithmetic::power2::pow2(bits));
    if exponent > bits {
        vstd::arithmetic::power2::lemma_pow2_strictly_increases(bits, exponent);
    }
    vstd::arithmetic::power2::lemma_pow2_adds(exponent, (bits - exponent) as nat);
    vstd::arithmetic::power2::lemma_pow2_pos(exponent);
    let rest = vstd::arithmetic::power2::pow2((bits - exponent) as nat) as int;
    assert(power * rest == rest * power) by (nonlinear_arith);
    vstd::arithmetic::div_mod::lemma_fundamental_div_mod_converse(words(), power, rest, 0);
}

/// The quotient of two powers of two is one.
pub proof fn lemma_power_quotient(dividend: int, divisor: int)
    requires
        is_power_of_two(dividend),
        is_power_of_two(divisor),
        divisor <= dividend,
    ensures
        divisor > 0,
        is_power_of_two(dividend / divisor),
        (dividend / divisor) * divisor == dividend,
        dividend / divisor > 0,
{
    let a = choose|exponent: nat| dividend == #[trigger] vstd::arithmetic::power2::pow2(exponent);
    let b = choose|exponent: nat| divisor == #[trigger] vstd::arithmetic::power2::pow2(exponent);
    if b > a {
        vstd::arithmetic::power2::lemma_pow2_strictly_increases(a, b);
    }
    vstd::arithmetic::power2::lemma_pow2_pos(b);
    vstd::arithmetic::power2::lemma_pow2_adds((a - b) as nat, b);
    let quotient = vstd::arithmetic::power2::pow2((a - b) as nat) as int;
    vstd::arithmetic::power2::lemma_pow2_pos((a - b) as nat);
    vstd::arithmetic::div_mod::lemma_fundamental_div_mod_converse(dividend, divisor, quotient, 0);
}

/// Wrapping a position around a word does not change its remainder by a power of two.
pub proof fn lemma_wrapped_remainder(position: int, power: int)
    requires
        is_power_of_two(power),
        power <= words(),
    ensures
        power > 0,
        (position % words()) % power == position % power,
{
    lemma_power_divides_words(power);
    vstd::arithmetic::div_mod::lemma_mod_mod(position, power, words() / power);
}

/// Positions that lie less than one word apart are told apart by their remainders.
pub proof fn lemma_wrapped_difference(from: int, to: int)
    requires
        from <= to < from + words(),
    ensures
        from % words() == to % words() <==> from == to,
        (if to % words() >= from % words() {
            to % words() - from % words()
        } else {
            to % words() - from % words() + words()
        }) == to - from,
{
    lemma_remainders(from, to, words());
}

/// Two integers that lie less than `modulus` apart have equal remainders only if they are equal.
pub proof fn lemma_remainders(from: int, to: int, modulus: int)
    requires
        modulus > 0,
        from <= to < from + modulus,
    ensures
        from % modulus == to % modulus <==> from == to,
        (if to % modulus >= from % modulus {
            to % modulus - from % modulus
        } else {
            to % modulus - from % modulus + modulus
        }) == to - from,
{
    let n = modulus;
    vstd::arithmetic::div_mod::lemma_fundamental_div_mod(from, n);
    vstd::arithmetic::div_mod::lemma_fundamental_div_mod(to, n);
    vstd::arithmetic::div_mod::lemma_mod_bound(from, n);
    vstd::arithmetic::div_mod::lemma_mod_bound(to, n);
    let a = from / n;
    let b = to / n;
    let d = to - from;
    assert(n * b - n * a == n * (b - a)) by (nonlinear_arith);
    assert(b - a == 0 || b - a == 1) by (nonlinear_arith)
        requires
            n > 0,
            n * (b - a) == d + from % n - to % n,
            0 <= d < n,
            0 <= from % n < n,
            0 <= to % n < n,
    ;
    if b - a == 0 {
        assert(n * (b - a) == 0) by (nonlinear_arith)
            requires
                b - a == 0,
        ;
    } else {
        assert(n * (b - a) == n) by (nonlinear_arith)
            requires
                b - a == 1,
        ;
    }
}

/// Wrapping addition of one step.
pub proof fn lemma_wrapped_next(position: int)
    ensures
        (position + 1) % words() == (if position % words() == usize::MAX {
            0
        } else {
            position % words() + 1
        }),
        0 <= position % words() <= usize::MAX,
{
    lemma_remainders(position, position + 1, words());
    vstd::arithmetic::div_mod::lemma_mod_bound(position, words());
    vstd::arithmetic::div_mod::lemma_mod_bound(position + 1, words());
}

/// Rounding up to a power of two does not leave a quarter of the words.
pub proof fn lemma_power_at_most_quarter(power: int, capacity: int)
    requires
        is_power_of_two(power),
        0 < capacity <= usize::MAX / 4 + 1,
        power > 1 ==> power < 2 * capacity,
    ensures
        power <= usize::MAX / 4 + 1,
{
    let words = words();
    if power > usize::MAX / 4 + 1 {
        vstd::arithmetic::power2::lemma2_to64();
        let exponent = choose|exponent: nat|
            power == #[trigger] vstd::arithmetic::power2::pow2(exponent);
        let quarter: nat = if words == vstd::arithmetic::power2::pow2(32) { 30 } else { 62 };
        assert(vstd::arithmetic::power2::pow2(quarter) == usize::MAX / 4 + 1) by {
            vstd::arithmetic::power2::lemma_pow2_unfold((quarter + 1) as nat);
            vstd::arithmetic::power2::lemma_pow2_unfold((quarter + 2) as nat);
        }
        if exponent <= quarter {
            if exponent < quarter {
                vstd::arithmetic::power2::lemma_pow2_strictly_increases(exponent, quarter);
            }
        } else {
            if exponent > quarter + 1 {
                vstd::arithmetic::power2::lemma_pow2_strictly_increases(
                    (quarter + 1) as nat,
                    exponent,
                );
            }
            vstd::arithmetic::power2::lemma_pow2_unfold((quarter + 1) as nat);
        }
    }
}

} // verus!
