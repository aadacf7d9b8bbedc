//! Magnitudes: a count written short, in thousands, millions or billions
//! with one decimal.
//!
//! The decimal is rounded to the nearest tenth; a count that lies midway
//! between two tenths is rounded to the even one.

use vstd::prelude::*;
use crate::text::push_char;

verus! {

/// A thousand.
pub const THOUSAND: u64 = 1_000;

/// A million.
pub const MILLION: u64 = 1_000_000;

/// A billion.
pub const BILLION: u64 = 1_000_000_000;

/// The character of a decimal digit.
pub open spec fn digit_char(d: nat) -> char {
    if d == 0 {
        '0'
    } else if d == 1 {
        '1'
    } else if d == 2 {
        '2'
    } else if d == 3 {
        '3'
    } else if d == 4 {
        '4'
    } else if d == 5 {
        '5'
    } else if d == 6 {
        '6'
    } else if d == 7 {
        '7'
    } else if d == 8 {
        '8'
    } else {
        '9'
    }
}

/// The decimal digits of `n`, without leading zeros.
pub open spec fn decimal(n: nat) -> Seq<char>
    decreases n,
{
    if n < 10 {
        seq![digit_char(n)]
    } else {
        decimal(n / 10).push(digit_char(n % 10))
    }
}

/// The whole number nearest to `n / unit`; of two that are equally near,
/// the even one.
pub open spec fn rounded_ratio(n: nat, unit: nat) -> nat {
    let whole = n / unit;
    let rest = n % unit;
    if 2 * rest > unit || (2 * rest == unit && whole % 2 == 1) {
        whole + 1
    } else {
        whole
    }
}

/// `n` in units of `unit` with one decimal, followed by `suffix`.
pub open spec fn scaled_text(n: nat, unit: nat, suffix: char) -> Seq<char> {
    let tenths = rounded_ratio(n, unit / 10);
    decimal(tenths / 10) + seq!['.'] + decimal(tenths % 10) + seq![suffix]
}

/// A count written short: in billions, millions or thousands with one
/// decimal and the suffix `B`, `M` or `K`; below a thousand, in full.
pub open spec fn magnitude_text(n: nat) -> Seq<char> {
    if n >= BILLION {
        scaled_text(n, BILLION as nat, 'B')
    } else if n >= MILLION {
        scaled_text(n, MILLION as nat, 'M')
    } else if n >= THOUSAND {
        scaled_text(n, THOUSAND as nat, 'K')
    } else {
        decimal(n)
    }
}

/// `rounded_ratio` is within half a unit of the exact ratio, and even
/// when it is exactly half a unit away.
pub proof fn lemma_rounded_ratio_is_nearest(n: nat, unit: nat)
    requires
        unit > 0,
    ensures
        2 * (n - rounded_ratio(n, unit) * unit) <= unit,
        2 * (rounded_ratio(n, unit) * unit - n) <= unit,
        2 * (n - rounded_ratio(n, unit) * unit) == unit || 2 * (rounded_ratio(n, unit) * unit - n)
            == unit ==> rounded_ratio(n, unit) % 2 == 0,
{
    let whole = n / unit;
    let rest = n % unit;
    assert(n == whole * unit + rest && 0 <= rest < unit) by (nonlinear_arith)
        requires
            unit > 0,
            whole == n / unit,
            rest == n % unit,
    ;
    assert((whole + 1) * unit == whole * unit + unit) by (nonlinear_arith);
}

/// The character of the decimal digit `d`.
fn digit_of(d: u64) -> (c: char)
    requires
        d < 10,
    ensures
        c == digit_char(d as nat),
{
    if d == 0 {
        '0'
    } else if d == 1 {
        '1'
    } else if d == 2 {
        '2'
    } else if d == 3 {
        '3'
    } else if d == 4 {
        '4'
    } else if d == 5 {
        '5'
    } else if d == 6 {
        '6'
    } else if d == 7 {
        '7'
    } else if d == 8 {
        '8'
    } else {
        '9'
    }
}

/// Appends the decimal digits of `n` to `text`.
pub fn push_decimal(text: &mut String, n: u64)
    ensures
        final(text)@ == old(text)@ + decimal(n as nat),
    decreases n,
{
    if n >= 10 {
        push_decimal(text, n / 10);
    }
    push_char(text, digit_of(n % 10));
    assert(text@ =~= old(text)@ + decimal(n as nat));
}

/// The whole number nearest to `n / unit`; of two that are equally near,
/// the even one.
pub fn round_ratio(n: u64, unit: u64) -> (r: u64)
    requires
        unit > 0,
    ensures
        r == rounded_ratio(n as nat, unit as nat),
{
    let whole = n / unit;
    let rest = n % unit;
    let left = unit - rest;
    if rest > left || (rest == left && whole % 2 == 1) {
        assert(whole < u64::MAX) by {
            assert(unit >= 2);
            assert(whole * 2 <= whole * unit <= n) by (nonlinear_arith)
                requires
                    whole == n / unit,
                    unit >= 2,
            ;
        }
        whole + 1
    } else {
        whole
    }
}

/// Appends `n` in units of `unit` with one decimal, and `suffix`.
fn push_scaled(text: &mut String, n: u64, unit: u64, suffix: char)
    requires
        unit == THOUSAND || unit == MILLION || unit == BILLION,
    ensures
        final(text)@ == old(text)@ + scaled_text(n as nat, unit as nat, suffix),
{
    let tenths = round_ratio(n, unit / 10);
    push_decimal(text, tenths / 10);
    push_char(text, '.');
    push_decimal(text, tenths % 10);
    push_char(text, suffix);
    assert(text@ =~= old(text)@ + scaled_text(n as nat, unit as nat, suffix));
}

/// Writes a count short: `950` stays `950`, `1500` becomes `1.5K`,
/// `2300000` becomes `2.3M`, `4000000000` becomes `4.0B`.
pub fn format_magnitude(n: u64) -> (text: String)
    ensures
        text@ == magnitude_text(n as nat),
{
    let mut text = String::new();
    if n >= BILLION {
        push_scaled(&mut text, n, BILLION, 'B');
    } else if n >= MILLION {
        push_scaled(&mut text, n, MILLION, 'M');
    } else if n >= THOUSAND {
        push_scaled(&mut text, n, THOUSAND, 'K');
    } else {
        push_decimal(&mut text, n);
    }
    assert(text@ =~= magnitude_text(n as nat));
    text
}

} // verus!
