//! Byte counts written the way a person reads them.
//!
//! The figures are what `{:.1}` and `{:.2}` print for a byte count converted
//! to a double and divided by a power of 1024, computed here in integers: the
//! count is first rounded to the 53 significant bits a double holds, the
//! division by a power of two is exact, and the printed digits are the exact
//! quotient rounded half to even.
use vstd::prelude::*;

use crate::text::{decimal_text, digit_char, push_char, push_decimal};

verus! {

/// `n / d` rounded to the nearest integer, ties to the even neighbour.
pub open spec fn round_div(n: nat, d: nat) -> nat {
    let q = n / d;
    let r = n % d;
    if 2 * r > d || (2 * r == d && q % 2 == 1) {
        q + 1
    } else {
        q
    }
}

/// The power of two that is one unit in the last place of a double near `b`,
/// found by doubling from `u` while `b` needs more than 53 bits.
pub open spec fn ulp_from(b: nat, u: nat) -> nat
    decreases b - u,
{
    if u >= 1 && b >= 0x20000000000000 * u {
        ulp_from(b, 2 * u)
    } else {
        u
    }
}

/// The value `b as f64` holds: `b` rounded, ties to even, to 53 significant
/// bits.
pub open spec fn as_double(b: nat) -> nat {
    let u = ulp_from(b, 1);
    round_div(b, u) * u
}

/// One digit after the point: `q` tenths.
pub open spec fn point1(q: nat) -> Seq<char> {
    decimal_text(q / 10) + seq!['.', digit_char(q % 10)]
}

/// Two digits after the point: `q` hundredths.
pub open spec fn point2(q: nat) -> Seq<char> {
    decimal_text(q / 100) + seq!['.', digit_char((q / 10) % 10), digit_char(q % 10)]
}

/// [`round_div`].
pub fn round_half_even(n: u128, d: u128) -> (r: u128)
    requires
        d > 0,
        n / d < u128::MAX,
    ensures
        r == round_div(n as nat, d as nat),
{
    let q = n / d;
    let rem = n % d;
    if rem > d - rem || (rem == d - rem && q % 2 == 1) {
        q + 1
    } else {
        q
    }
}

/// [`as_double`].
pub fn double_value(b: u64) -> (r: u128)
    ensures
        r == as_double(b as nat),
        r < 0x40000000000000000,
        b < 0x20000000000000 ==> r == b,
{
    let mut u: u128 = 1;
    while (b as u128) >= 0x20000000000000u128 * u
        invariant
            u >= 1,
            u <= 0x1000,
            ulp_from(b as nat, u as nat) == ulp_from(b as nat, 1),
            u * 0x20000000000000 <= 2 * (b as nat) + 0x20000000000000,
            b < 0x20000000000000 ==> u == 1,
        decreases b - u,
    {
        assert(u < 0x800) by (nonlinear_arith)
            requires
                u * 0x20000000000000 <= b,
                b < 0x10000000000000000,
        ;
        u = u * 2;
    }
    assert((b as nat) / (u as nat) < 0x20000000000000) by (nonlinear_arith)
        requires
            (b as nat) < 0x20000000000000 * (u as nat),
            u >= 1,
    ;
    let q = round_half_even(b as u128, u);
    proof {
        if b < 0x20000000000000 {
            assert(u == 1);
            assert((b as nat) / 1 == b as nat);
            assert((b as nat) % 1 == 0);
            assert(q == b);
        }
    }
    assert(q <= 0x20000000000000);
    assert(q * u <= 0x20000000000000 * u) by (nonlinear_arith)
        requires
            q <= 0x20000000000000,
    ;
    q * u
}

/// Append `q` tenths as `{:.1}` writes them.
pub fn push_point1(out: &mut String, q: u128)
    requires
        q / 10 <= u64::MAX,
    ensures
        final(out)@ == old(out)@ + point1(q as nat),
{
    push_decimal(out, (q / 10) as u64);
    push_char(out, '.');
    let d: u8 = (q % 10) as u8;
    push_char(out, (48u8 + d) as char);
    assert(old(out)@ + decimal_text((q / 10) as nat) + seq!['.'] + seq![digit_char((q % 10) as nat)]
        =~= old(out)@ + point1(q as nat));
}

/// Append `q` hundredths as `{:.2}` writes them.
pub fn push_point2(out: &mut String, q: u128)
    requires
        q / 100 <= u64::MAX,
    ensures
        final(out)@ == old(out)@ + point2(q as nat),
{
    push_decimal(out, (q / 100) as u64);
    push_char(out, '.');
    let d1: u8 = ((q / 10) % 10) as u8;
    push_char(out, (48u8 + d1) as char);
    let d2: u8 = (q % 10) as u8;
    push_char(out, (48u8 + d2) as char);
    assert(old(out)@ + decimal_text((q / 100) as nat) + seq!['.'] + seq![digit_char(((q / 10) % 10) as nat)]
        + seq![digit_char((q % 10) as nat)] =~= old(out)@ + point2(q as nat));
}

} // verus!
