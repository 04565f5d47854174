//! How font sizes are rounded, and what their tenths are.

use crate::blocks::FontSize;
use crate::size::{last_place, nearest, power_of_two, tenths_of};
use vstd::arithmetic::power2::{lemma2_to64, lemma_pow2_pos, lemma_pow2_unfold, pow2};
use vstd::prelude::*;

verus! {

/// Whether two to the power of `place` is the value of the last of the 24 bits that are kept of `n`:
/// all bits of a small number, and the first ones of a larger one.
pub open spec fn is_last_bit(n: nat, place: nat) -> bool {
    n < 0x100_0000 * pow2(place) && (place == 0 || 0x80_0000 * pow2(place) <= n)
}

proof fn lemma_unit(n: nat, place: nat)
    requires
        is_last_bit(n, place),
    ensures
        last_place(n) == pow2(place),
    decreases place,
{
    lemma2_to64();
    lemma_pow2_pos(place);
    if place > 0 {
        lemma_pow2_unfold(place);
        lemma_pow2_pos((place - 1) as nat);
        lemma_unit(n / 2, (place - 1) as nat);
    }
}

/// A number is rounded to one that 24 bits hold and that is as near as any. Of two that are as near it
/// is the one whose last bit is even. What 24 bits hold is not changed.
pub proof fn law_numbers_are_rounded(n: nat, place: nat)
    requires
        is_last_bit(n, place),
    ensures
        nearest(n) % pow2(place) == 0,
        2 * (nearest(n) - n) <= pow2(place),
        2 * (n - nearest(n)) <= pow2(place),
        2 * (nearest(n) - n) == pow2(place) || 2 * (n - nearest(n)) == pow2(place) ==> (nearest(n) / pow2(place)) % 2
            == 0,
        n % pow2(place) == 0 ==> nearest(n) == n,
{
    lemma_unit(n, place);
    lemma_pow2_pos(place);
    let unit = pow2(place);
    let below = n / unit;
    let rest = n % unit;
    assert(n == below * unit + rest && rest < unit) by (nonlinear_arith)
        requires
            unit >= 1,
            below == n / unit,
            rest == n % unit,
    ;
    assert((below + 1) * unit == below * unit + unit) by (nonlinear_arith);
    assert((below * unit) % unit == 0 && (below * unit) / unit == below) by (nonlinear_arith)
        requires
            unit >= 1,
    ;
    assert(((below + 1) * unit) % unit == 0 && ((below + 1) * unit) / unit == below + 1) by (nonlinear_arith)
        requires
            unit >= 1,
    ;
}

proof fn lemma_powers(n: nat)
    ensures
        power_of_two(n) == pow2(n),
        pow2(n) > 0,
    decreases n,
{
    lemma2_to64();
    lemma_pow2_pos(n);
    if n > 0 {
        lemma_pow2_unfold(n);
        lemma_powers((n - 1) as nat);
    }
}

proof fn lemma_ten_times(m: nat)
    requires
        m < 0x100_0000,
    ensures
        nearest(10 * m) <= 10 * m + 8,
        10 * m <= nearest(10 * m) + 8,
        (10 * m) % 16 == 0 || 10 * m < 0x100_0000 ==> nearest(10 * m) == 10 * m,
{
    let n = 10 * m;
    lemma2_to64();
    let place: nat = if n < 0x100_0000 {
        0
    } else if n < 0x200_0000 {
        1
    } else if n < 0x400_0000 {
        2
    } else if n < 0x800_0000 {
        3
    } else {
        4
    };
    law_numbers_are_rounded(n, place);
    let unit = pow2(place);
    assert(unit == 1 || unit == 2 || unit == 4 || unit == 8 || unit == 16);
    assert(n % 1 == 0);
    assert(n % 16 == 0 ==> n % 2 == 0 && n % 4 == 0 && n % 8 == 0);
}

/// The tenths of a whole number of points are ten times as many, as far as 24 bits hold them, and
/// differ by 8 from that at most where 24 bits hold the number of points. A size below zero has none,
/// and one of 2^32 points or more has the most.
pub proof fn law_tenths_of_whole_points(n: i64)
    ensures
        n < 0 ==> tenths_of(FontSize::Integer(n)) == 0,
        0 <= n < 0x100_0000 ==> tenths_of(FontSize::Integer(n)) <= 10 * n + 8 && 10 * n <= tenths_of(
            FontSize::Integer(n),
        ) + 8,
        0 <= n < 0x100_0000 && ((10 * n) % 16 == 0 || 10 * n < 0x100_0000) ==> tenths_of(FontSize::Integer(n)) == 10
            * n,
        n >= 0x1_0000_0000 ==> tenths_of(FontSize::Integer(n)) == u32::MAX,
{
    if 0 <= n < 0x100_0000 {
        lemma2_to64();
        law_numbers_are_rounded(n as nat, 0);
        lemma_ten_times(n as nat);
    }
    if n >= 0x1_0000_0000 {
        lemma_not_halved(n as nat);
        lemma_not_halved(10 * nearest(n as nat));
    }
}

proof fn lemma_has_last_bit(n: nat) -> (place: nat)
    ensures
        is_last_bit(n, place),
    decreases n,
{
    lemma2_to64();
    if n < 0x100_0000 {
        0
    } else {
        let half = lemma_has_last_bit(n / 2);
        lemma_pow2_unfold(half + 1);
        lemma_pow2_pos(half);
        half + 1
    }
}

proof fn lemma_not_halved(n: nat)
    ensures
        2 * nearest(n) >= n,
{
    let place = lemma_has_last_bit(n);
    law_numbers_are_rounded(n, place);
    lemma2_to64();
    lemma_pow2_pos(place);
}

/// The tenths of a real number are the whole tenths that it has: exactly those where ten times its 24
/// bits are held by 24 bits again, and those of a number next to it otherwise. A number is given by
/// its fraction and its exponent.
pub proof fn law_tenths_of_real_numbers(fraction: nat, exponent: nat, bits: u32)
    requires
        fraction < 0x80_0000,
        1 <= exponent <= 254,
        bits == exponent * 0x80_0000 + fraction,
    ensures
        ({
            let tenfold = 10 * (fraction + 0x80_0000);
            let tenths = tenths_of(FontSize::Real(bits));
            if exponent < 150 {
                let unit = pow2((150 - exponent) as nat);
                &&& tenths * unit <= tenfold + 8
                &&& tenfold < (tenths + 1) * unit + 8
                &&& tenfold % 16 == 0 ==> tenths == tenfold / unit
            } else {
                let unit = pow2((exponent - 150) as nat);
                &&& tenths <= (tenfold + 8) * unit
                &&& (tenfold - 8) * unit <= tenths || tenths == u32::MAX
                &&& tenfold % 16 == 0 && tenfold * unit <= u32::MAX ==> tenths == tenfold * unit
                &&& tenfold % 16 == 0 && tenfold * unit > u32::MAX ==> tenths == u32::MAX
            }
        }),
{
    assert(bits as nat / 0x80_0000 == exponent && bits as nat % 0x80_0000 == fraction);
    assert(bits < 0x8000_0000);
    let m = fraction + 0x80_0000;
    let tenfold = 10 * m;
    let product = nearest(10 * m);
    lemma_ten_times(m);
    if exponent < 150 {
        let k = (150 - exponent) as nat;
        lemma_powers(k);
        let unit = pow2(k);
        let whole = product / unit;
        assert(whole * unit <= product < (whole + 1) * unit && whole <= product) by (nonlinear_arith)
            requires
                unit > 0,
                whole == product / unit,
        ;
    } else {
        let k = (exponent - 150) as nat;
        lemma_powers(k);
        let unit = pow2(k);
        assert(product * unit <= (tenfold + 8) * unit) by (nonlinear_arith)
            requires
                product <= tenfold + 8,
                unit > 0,
        ;
        assert((tenfold - 8) * unit <= product * unit) by (nonlinear_arith)
            requires
                tenfold - 8 <= product,
                unit > 0,
        ;
    }
}

/// What is negative or not a number, what is below the smallest normal number, and a size that is not
/// set have no tenths; what is infinite has the most.
pub proof fn law_tenths_of_special_numbers(bits: u32)
    ensures
        tenths_of(FontSize::Unset) == 0,
        bits >= 0x8000_0000 ==> tenths_of(FontSize::Real(bits)) == 0,
        bits < 0x80_0000 ==> tenths_of(FontSize::Real(bits)) == 0,
        0x7f80_0000 < bits < 0x8000_0000 ==> tenths_of(FontSize::Real(bits)) == 0,
        bits == 0x7f80_0000 ==> tenths_of(FontSize::Real(bits)) == u32::MAX,
{
}

} // verus!
