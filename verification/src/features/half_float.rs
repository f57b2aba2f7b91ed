//! Half-precision values as single-precision ones, on IEEE-754 bit patterns.
//!
//! Every half-precision value is a single-precision value, so nothing is
//! rounded. A NaN keeps its sign and payload and becomes quiet.
use vstd::prelude::*;
use vstd::arithmetic::power2::pow2;

verus! {

/// Exponent and fraction of the single-precision value `significand / 1024`
/// times two to the power `exponent - 127`, with the significand brought to at
/// least 1024.
pub open spec fn normalized(significand: nat, exponent: nat) -> nat
    decreases exponent,
{
    if significand >= 0x400 || exponent == 0 {
        (exponent * 0x80_0000 + (significand - 0x400) * 0x2000) as nat
    } else {
        normalized(2 * significand, (exponent - 1) as nat)
    }
}

/// The single-precision bit pattern of a half-precision bit pattern: sign, five
/// bits of exponent, ten bits of fraction.
pub open spec fn widened(half: u16) -> int {
    let sign = (half as int / 0x8000) * 0x8000_0000;
    let exponent = (half as int / 0x400) % 0x20;
    let fraction = half as int % 0x400;
    sign + if exponent == 0x1f {
        if fraction == 0 {
            0x7f80_0000
        } else {
            0x7fc0_0000 + (fraction % 0x200) * 0x2000
        }
    } else if exponent > 0 {
        (exponent + 112) * 0x80_0000 + fraction * 0x2000
    } else if fraction == 0 {
        0
    } else {
        normalized(fraction as nat, 113) as int
    }
}

/// Widens a half-precision bit pattern.
pub fn widen(half: u16) -> (single: u32)
    ensures
        single == widened(half),
{
    let sign: u32 = (half / 0x8000) as u32 * 0x8000_0000;
    let exponent: u32 = ((half / 0x400) % 0x20) as u32;
    let fraction: u32 = (half % 0x400) as u32;
    if exponent == 0x1f {
        if fraction == 0 {
            sign + 0x7f80_0000
        } else {
            sign + (0x7fc0_0000 + (fraction % 0x200) * 0x2000)
        }
    } else if exponent > 0 {
        sign + ((exponent + 112) * 0x80_0000 + fraction * 0x2000)
    } else if fraction == 0 {
        sign
    } else {
        let mut s: u32 = fraction;
        let mut e: u32 = 113;
        while s < 0x400
            invariant
                0 < s < 0x800,
                103 <= e <= 113,
                normalized(s as nat, e as nat) == normalized(fraction as nat, 113),
                e == 112 ==> s >= 2,
                e == 111 ==> s >= 4,
                e == 110 ==> s >= 8,
                e == 109 ==> s >= 16,
                e == 108 ==> s >= 32,
                e == 107 ==> s >= 64,
                e == 106 ==> s >= 128,
                e == 105 ==> s >= 256,
                e == 104 ==> s >= 512,
                e == 103 ==> s >= 0x400,
            decreases e,
        {
            s = 2 * s;
            e = e - 1;
        }
        sign + (e * 0x80_0000 + (s - 0x400) * 0x2000)
    }
}

/// Widening keeps the value. The sign stays. A normal value keeps its fraction
/// and has its exponent rebiased from 15 to 127; a subnormal one is shifted until
/// its leading bit is the implicit one, and its exponent goes down with every
/// place; zero stays zero and infinity stays infinite. A NaN stays one, becomes
/// quiet, and keeps the rest of its payload. The shift is returned.
pub proof fn law_widening_keeps_the_value(half: u16) -> (shift: nat)
    ensures
        ({
            let sign = half as int / 0x8000;
            let exponent = (half as int / 0x400) % 0x20;
            let fraction = half as int % 0x400;
            let wide = widened(half);
            let e = (wide / 0x80_0000) % 0x100;
            let f = wide % 0x80_0000;
            &&& 0 <= wide <= u32::MAX
            &&& wide / 0x8000_0000 == sign
            &&& 0 < exponent < 0x1f ==> e == exponent - 15 + 127 && f == fraction * 0x2000
            &&& exponent == 0 && fraction == 0 ==> e == 0 && f == 0
            &&& exponent == 0 && fraction > 0 ==> {
                &&& 1 <= shift <= 10
                &&& 0x400 <= fraction * pow2(shift) < 0x800
                &&& e == 113 - shift
                &&& f == (fraction * pow2(shift) - 0x400) * 0x2000
            }
            &&& exponent == 0x1f ==> e == 0xff
            &&& exponent == 0x1f && fraction == 0 ==> f == 0
            &&& exponent == 0x1f && fraction > 0 ==> f == 0x40_0000 + (fraction % 0x200) * 0x2000
        }),
{
    let sign = half as int / 0x8000;
    let exponent = (half as int / 0x400) % 0x20;
    let fraction = half as int % 0x400;
    if exponent == 0 && fraction > 0 {
        lemma_subnormal(fraction as nat)
    } else {
        0
    }
}

/// A subnormal fraction, shifted into place.
proof fn lemma_subnormal(fraction: nat) -> (shift: nat)
    requires
        0 < fraction < 0x400,
    ensures
        1 <= shift <= 10,
        0x400 <= fraction * pow2(shift) < 0x800,
        normalized(fraction, 113) == (113 - shift) * 0x80_0000 + (fraction * pow2(shift) - 0x400)
            * 0x2000,
{
    vstd::arithmetic::power2::lemma2_to64();
    assert(0x400 <= fraction * pow2(10)) by (nonlinear_arith)
        requires
            pow2(10) == 0x400,
            fraction > 0,
    ;
    lemma_shifted(fraction, 10)
}

/// Shifting a significand by at most `left` places brings it to at least 1024.
proof fn lemma_shifted(significand: nat, left: nat) -> (shift: nat)
    requires
        left <= 10,
        0x400 <= significand * pow2(left),
        0 < significand < 0x800,
    ensures
        shift <= left,
        significand < 0x400 ==> shift > 0,
        0x400 <= significand * pow2(shift) < 0x800,
        normalized(significand, 103 + left) == (103 + left - shift) * 0x80_0000 + (significand
            * pow2(shift) - 0x400) * 0x2000,
    decreases left,
{
    vstd::arithmetic::power2::lemma2_to64();
    if significand >= 0x400 {
        assert(significand * pow2(0) == significand) by (nonlinear_arith)
            requires
                pow2(0) == 1,
        ;
        0
    } else {
        assert(left > 0) by {
            if left == 0 {
                assert(significand * pow2(0) == significand) by (nonlinear_arith)
                    requires
                        pow2(0) == 1,
                ;
            }
        }
        let rest = (left - 1) as nat;
        lemma_doubled(significand, rest);
        let shift = lemma_shifted(2 * significand, rest);
        lemma_doubled(significand, shift);
        shift + 1
    }
}

proof fn lemma_doubled(x: nat, k: nat)
    ensures
        (2 * x) * pow2(k) == x * pow2(k + 1),
{
    vstd::arithmetic::power2::lemma_pow2_unfold(k + 1);
    assert((2 * x) * pow2(k) == x * (2 * pow2(k))) by (nonlinear_arith);
}

} // verus!
