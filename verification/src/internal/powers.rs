//! Powers of two and rounding.
use vstd::prelude::*;

verus! {

/// A power of two.
pub open spec fn power_of_two(n: nat) -> bool
    decreases n,
{
    n == 1 || (n > 1 && n % 2 == 0 && power_of_two(n / 2))
}

/// Whether a number is a power of two.
pub fn is_power_of_two(n: u64) -> (b: bool)
    ensures
        b == power_of_two(n as nat),
    decreases n,
{
    if n <= 1 {
        return n == 1;
    }
    n % 2 == 0 && is_power_of_two(n / 2)
}

/// A power of two divides every power of two that is not smaller.
pub proof fn law_powers_divide(d: nat, n: nat)
    requires
        power_of_two(d),
        power_of_two(n),
        d <= n,
    ensures
        n % d == 0,
    decreases d,
{
    if d == 1 {
    } else {
        law_powers_divide(d / 2, n / 2);
        let q = (n / 2) / (d / 2);
        assert(n == d * q) by (nonlinear_arith)
            requires
                n % 2 == 0,
                d % 2 == 0,
                d >= 2,
                (n / 2) % (d / 2) == 0,
                q == (n / 2) / (d / 2),
        ;
        vstd::arithmetic::div_mod::lemma_mod_multiples_basic(q as int, d as int);
        vstd::arithmetic::mul::lemma_mul_is_commutative(q as int, d as int);
    }
}

/// `n` rounded down to a multiple of `unit`.
pub open spec fn down_to(n: int, unit: int) -> int {
    n - n % unit
}

/// `n` rounded up to a multiple of `unit`.
pub open spec fn up_to(n: int, unit: int) -> int {
    down_to(n + unit - 1, unit)
}

/// Rounding goes to the next multiple on either side.
pub proof fn law_rounding(n: int, unit: int)
    requires
        0 <= n,
        0 < unit,
    ensures
        0 <= down_to(n, unit) <= n < down_to(n, unit) + unit,
        down_to(n, unit) % unit == 0,
        n <= up_to(n, unit) < n + unit,
        up_to(n, unit) % unit == 0,
{
    lemma_down(n, unit);
    lemma_down(n + unit - 1, unit);
}

proof fn lemma_down(n: int, unit: int)
    requires
        0 <= n,
        0 < unit,
    ensures
        0 <= down_to(n, unit) <= n < down_to(n, unit) + unit,
        down_to(n, unit) % unit == 0,
{
    let q = n / unit;
    vstd::arithmetic::div_mod::lemma_fundamental_div_mod(n, unit);
    vstd::arithmetic::div_mod::lemma_mod_bound(n, unit);
    assert(0 <= unit * q) by (nonlinear_arith)
        requires
            0 <= n,
            0 < unit,
            q == n / unit,
    ;
    vstd::arithmetic::div_mod::lemma_mod_multiples_basic(q, unit);
    vstd::arithmetic::mul::lemma_mul_is_commutative(q, unit);
}

/// The powers of two are one and the doubles of powers of two, and no others.
pub proof fn law_powers_of_two(n: nat, k: nat)
    ensures
        power_of_two(1),
        !power_of_two(0),
        power_of_two(n) ==> power_of_two(2 * n),
        power_of_two(2 * n) ==> power_of_two(n),
        power_of_two(vstd::arithmetic::power2::pow2(k)),
        n > 1 && n % 2 == 1 ==> !power_of_two(n),
    decreases k,
{
    vstd::arithmetic::power2::lemma2_to64();
    if k > 0 {
        law_powers_of_two(vstd::arithmetic::power2::pow2((k - 1) as nat), (k - 1) as nat);
        vstd::arithmetic::power2::lemma_pow2_unfold(k);
        vstd::arithmetic::power2::lemma_pow2_pos((k - 1) as nat);
        let half = vstd::arithmetic::power2::pow2((k - 1) as nat);
        assert((2 * half) / 2 == half);
    }
    assert((2 * n) / 2 == n);
}

} // verus!
