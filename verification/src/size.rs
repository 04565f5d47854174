//! Font sizes in tenths of a point.
//!
//! Sizes are compared by the tenths that single-precision arithmetic gives: the size times ten,
//! with the fraction cut off. The arithmetic is done on integers here, rounding included.

use crate::blocks::FontSize;
use vstd::prelude::*;

verus! {

/// The value of the last of the 24 bits that a single-precision number keeps of `n`.
pub open spec fn last_place(n: nat) -> nat
    decreases n,
{
    if n < 0x100_0000 {
        1
    } else {
        2 * last_place(n / 2)
    }
}

/// The single-precision number nearest to `n`; of two that are as near, the one with an even last
/// bit.
pub open spec fn nearest(n: nat) -> nat {
    let unit = last_place(n);
    let below = n / unit;
    let rest = n % unit;
    if 2 * rest > unit || (2 * rest == unit && below % 2 == 1) {
        (below + 1) * unit
    } else {
        below * unit
    }
}

/// Two to the power of `n`.
pub open spec fn power_of_two(n: nat) -> nat
    decreases n,
{
    if n == 0 {
        1
    } else {
        2 * power_of_two((n - 1) as nat)
    }
}

/// The number as far as 32 bits hold it.
pub open spec fn clamped(n: nat) -> u32 {
    if n <= u32::MAX {
        n as u32
    } else {
        u32::MAX
    }
}

/// The tenths of a real number, given by the bits of its single-precision encoding. What is
/// negative or not a number has none, and what is below the smallest normal number is below a
/// tenth.
pub open spec fn real_tenths(bits: u32) -> u32 {
    let exponent = (bits as nat / 0x80_0000) % 0x100;
    let fraction = bits as nat % 0x80_0000;
    if bits >= 0x8000_0000 || exponent == 0 || (exponent == 255 && fraction != 0) {
        0
    } else if exponent == 255 {
        u32::MAX
    } else {
        let product = nearest(10 * (fraction + 0x80_0000));
        if exponent >= 150 {
            clamped(product * power_of_two((exponent - 150) as nat))
        } else {
            clamped(product / power_of_two((150 - exponent) as nat))
        }
    }
}

/// The size in tenths of a point.
pub open spec fn tenths_of(size: FontSize) -> u32 {
    match size {
        FontSize::Unset => 0,
        FontSize::Integer(n) => if n < 0 {
            0
        } else {
            clamped(nearest(10 * nearest(n as nat)))
        },
        FontSize::Real(bits) => real_tenths(bits),
    }
}

proof fn lemma_last_place(n: nat)
    ensures
        1 <= last_place(n),
        last_place(n) <= n || n == 0 || last_place(n) == 1,
    decreases n,
{
    if n >= 0x100_0000 {
        lemma_last_place(n / 2);
    }
}

/// Rounding adds at most half of the number.
proof fn lemma_nearest(n: nat)
    ensures
        nearest(n) <= 2 * n,
{
    lemma_last_place(n);
    let unit = last_place(n);
    let below = n / unit;
    let rest = n % unit;
    assert(n == below * unit + rest && rest < unit) by (nonlinear_arith)
        requires
            unit >= 1,
            below == n / unit,
            rest == n % unit,
    ;
    assert((below + 1) * unit == below * unit + unit) by (nonlinear_arith);
    if n == 0 {
        assert(below == 0 && rest == 0);
    }
}

fn round_nearest(n: u128) -> (r: u128)
    requires
        n < 0x80_0000_0000_0000_0000,
    ensures
        r == nearest(n as nat),
        r <= 2 * n,
{
    let mut unit: u128 = 1;
    let mut rest: u128 = n;
    while rest >= 0x100_0000
        invariant
            n < 0x80_0000_0000_0000_0000,
            1 <= unit,
            unit * rest <= n,
            last_place(n as nat) == unit * last_place(rest as nat),
        decreases rest,
    {
        let ghost place = last_place(rest as nat / 2);
        assert(last_place(rest as nat) == 2 * place);
        assert(unit <= n) by (nonlinear_arith)
            requires
                unit * rest <= n,
                rest >= 1,
        ;
        assert((unit * 2) * (rest / 2) <= unit * rest) by (nonlinear_arith);
        assert((unit * 2) * place == unit * (2 * place)) by (nonlinear_arith);
        unit = unit * 2;
        rest = rest / 2;
    }
    assert(unit * last_place(rest as nat) == unit) by (nonlinear_arith)
        requires
            last_place(rest as nat) == 1,
    ;
    assert(unit <= n || n == 0 || unit == 1) by {
        lemma_last_place(n as nat);
    }
    proof {
        lemma_nearest(n as nat);
    }
    let below: u128 = n / unit;
    let over: u128 = n % unit;
    assert(n == below * unit + over && over < unit) by (nonlinear_arith)
        requires
            unit >= 1,
            below == n / unit,
            over == n % unit,
    ;
    assert((below + 1) * unit == below * unit + unit) by (nonlinear_arith);
    assert(below <= n) by (nonlinear_arith)
        requires
            n == below * unit + over,
            unit >= 1,
            over >= 0,
    ;
    if 2 * over > unit || (2 * over == unit && below % 2 == 1) {
        (below + 1) * unit
    } else {
        below * unit
    }
}

fn clamp(n: u128) -> (r: u32)
    ensures
        r == clamped(n as nat),
{
    if n <= 0xffff_ffff {
        n as u32
    } else {
        u32::MAX
    }
}

proof fn lemma_power_of_two(n: nat)
    ensures
        power_of_two(n) >= 1,
    decreases n,
{
    if n > 0 {
        lemma_power_of_two((n - 1) as nat);
    }
}

fn scale_up(product: u128, shift: u32) -> (r: u32)
    requires
        product <= 0x1_0000_0000,
    ensures
        r == clamped(product as nat * power_of_two(shift as nat)),
{
    let mut scaled: u128 = product;
    let mut left: u32 = shift;
    while left > 0 && scaled <= 0xffff_ffff
        invariant
            scaled <= 0x2_0000_0000,
            product as nat * power_of_two(shift as nat) == scaled as nat * power_of_two(left as nat),
        decreases left,
    {
        let ghost power = power_of_two((left - 1) as nat);
        assert(scaled as nat * (2 * power) == (scaled as nat * 2) * power) by (nonlinear_arith);
        scaled = scaled * 2;
        left -= 1;
    }
    let ghost power = power_of_two(left as nat);
    proof {
        lemma_power_of_two(left as nat);
    }
    assert(scaled as nat <= scaled as nat * power) by (nonlinear_arith)
        requires
            power >= 1,
    ;
    assert(left == 0 ==> scaled as nat * power == scaled) by (nonlinear_arith)
        requires
            left == 0 ==> power == 1,
    ;
    clamp(scaled)
}

fn scale_down(product: u128, shift: u32) -> (r: u32)
    ensures
        r == clamped(product as nat / power_of_two(shift as nat)),
{
    let mut scaled: u128 = product;
    let mut left: u32 = shift;
    while left > 0
        invariant
            product as nat / power_of_two(shift as nat) == scaled as nat / power_of_two(left as nat),
        decreases left,
    {
        proof {
            lemma_power_of_two((left - 1) as nat);
            vstd::arithmetic::div_mod::lemma_div_denominator(
                scaled as int,
                2,
                power_of_two((left - 1) as nat) as int,
            );
        }
        scaled = scaled / 2;
        left -= 1;
    }
    let ghost power = power_of_two(left as nat);
    assert(scaled as nat / power == scaled) by (nonlinear_arith)
        requires
            power == 1,
    ;
    clamp(scaled)
}

/// The tenths of a real number.
fn real_number_tenths(bits: u32) -> (r: u32)
    ensures
        r == real_tenths(bits),
{
    let exponent: u32 = (bits / 0x80_0000) % 0x100;
    let fraction: u32 = bits % 0x80_0000;
    if bits >= 0x8000_0000 || exponent == 0 || (exponent == 255 && fraction != 0) {
        return 0;
    }
    if exponent == 255 {
        return u32::MAX;
    }
    let product: u128 = round_nearest(10 * (fraction as u128 + 0x80_0000));
    if exponent >= 150 {
        scale_up(product, exponent - 150)
    } else {
        scale_down(product, 150 - exponent)
    }
}

/// The size in tenths of a point.
pub fn tenths(size: FontSize) -> (r: u32)
    ensures
        r == tenths_of(size),
{
    match size {
        FontSize::Unset => 0,
        FontSize::Integer(n) => if n < 0 {
            0
        } else {
            clamp(round_nearest(10 * round_nearest(n as u128)))
        },
        FontSize::Real(bits) => real_number_tenths(bits),
    }
}

proof fn lemma_exact(n: nat)
    requires
        n < 0x100_0000,
    ensures
        nearest(n) == n,
{
    let unit = last_place(n);
    let below = n / unit;
    assert(n / unit == n && n % unit == 0 && n * unit == n) by (nonlinear_arith)
        requires
            unit == 1,
    ;
}

/// Of a whole number of points that is not too large, the tenths are ten times as many.
pub proof fn law_whole_points(n: i64)
    requires
        0 <= n,
        10 * n < 0x100_0000,
    ensures
        tenths_of(FontSize::Integer(n)) == 10 * n,
{
    lemma_exact(n as nat);
    lemma_exact((10 * n) as nat);
}

} // verus!
