//! Exact decimal quantities, computed by `rust_decimal`.
//!
//! A [`Fixed`] holds a decimal number as the two integers that
//! `rust_decimal::Decimal` is made of. The arithmetic itself is done by that
//! crate; what it returns is described here either exactly or by name.

use vstd::prelude::*;
use vstd::arithmetic::power::{pow, lemma_pow_positive};
use vstd::arithmetic::div_mod::{lemma_div_pos_is_pos, lemma_div_nonincreasing};
use rust_decimal::{Decimal, RoundingStrategy};

verus! {

/// Largest number of fractional digits.
pub const MAX_SCALE: u32 = 28;

/// Largest magnitude of a mantissa: 96 bits.
pub const MAX_MANTISSA: i128 = 0xffff_ffff_ffff_ffff_ffff_ffff;

/// The decimal number `mantissa / 10^scale`.
#[derive(Clone, Copy, Debug, PartialEq, Eq, Structural)]
pub struct Fixed {
    /// The scaled numerator.
    pub mantissa: i128,
    /// The number of fractional digits.
    pub scale: u32,
}

impl Fixed {
    /// The mantissa fits in 96 bits and the scale is at most 28.
    pub open spec fn wf(self) -> bool {
        -MAX_MANTISSA <= self.mantissa <= MAX_MANTISSA && self.scale <= MAX_SCALE
    }

    /// The number `mantissa / 10^scale`, or `None` where it cannot be held.
    pub fn new(mantissa: i128, scale: u32) -> (r: Option<Fixed>)
        ensures
            r == if (Fixed { mantissa, scale }).wf() {
                Some(Fixed { mantissa, scale })
            } else {
                None
            },
    {
        if -MAX_MANTISSA <= mantissa && mantissa <= MAX_MANTISSA && scale <= MAX_SCALE {
            Some(Fixed { mantissa, scale })
        } else {
            None
        }
    }

    /// The integer `n`, with no fractional digits.
    pub fn from_i64(n: i64) -> (r: Fixed)
        ensures
            r == (Fixed { mantissa: n as i128, scale: 0 }),
            r.wf(),
    {
        Fixed { mantissa: n as i128, scale: 0 }
    }

    /// Whether the value can be handed to the arithmetic.
    pub fn is_valid(&self) -> (b: bool)
        ensures
            b == self.wf(),
    {
        -MAX_MANTISSA <= self.mantissa && self.mantissa <= MAX_MANTISSA && self.scale <= MAX_SCALE
    }
}

/// `x` cut off after `places` fractional digits, towards zero; unchanged
/// where it has no more digits than that.
pub open spec fn truncated(x: Fixed, places: u32) -> Fixed {
    if x.scale <= places {
        x
    } else {
        let unit = pow(10, (x.scale - places) as nat);
        let cut = if x.mantissa >= 0 {
            (x.mantissa as int) / unit
        } else {
            -((-(x.mantissa as int)) / unit)
        };
        Fixed { mantissa: cut as i128, scale: places }
    }
}

/// Whether `a` is numerically at most `b`.
pub open spec fn at_most(a: Fixed, b: Fixed) -> bool {
    a.mantissa * pow(10, b.scale as nat) <= b.mantissa * pow(10, a.scale as nat)
}

/// Mantissa and scale that `Decimal::rescale` leaves in a value.
pub uninterp spec fn decimal_rescaled(mantissa: i128, scale: u32, target: u32) -> (i128, u32);

/// Mantissa and scale of what `Decimal::checked_div` returns.
pub uninterp spec fn decimal_quotient(am: i128, a_scale: u32, bm: i128, b_scale: u32) -> Option<(i128, u32)>;

/// Mantissa and scale of what `Decimal::checked_mul` returns.
pub uninterp spec fn decimal_product(am: i128, a_scale: u32, bm: i128, b_scale: u32) -> Option<(i128, u32)>;

/// Mantissa and scale of what `Decimal::checked_sub` returns.
pub uninterp spec fn decimal_difference(am: i128, a_scale: u32, bm: i128, b_scale: u32) -> Option<(i128, u32)>;

/// Mantissa and scale of what `Decimal::checked_add` returns.
pub uninterp spec fn decimal_sum(am: i128, a_scale: u32, bm: i128, b_scale: u32) -> Option<(i128, u32)>;

/// A pair of mantissa and scale as a `Fixed`.
pub open spec fn paired(parts: (i128, u32)) -> Fixed {
    Fixed { mantissa: parts.0, scale: parts.1 }
}

/// A possible pair of mantissa and scale as a possible `Fixed`.
pub open spec fn paired_option(parts: Option<(i128, u32)>) -> Option<Fixed> {
    match parts {
        Some(p) => Some(paired(p)),
        None => None,
    }
}

/// `x` brought to `target` fractional digits as far as the mantissa allows.
pub open spec fn rescaled(x: Fixed, target: u32) -> Fixed {
    paired(decimal_rescaled(x.mantissa, x.scale, target))
}

/// `a / b`, or `None` where the division overflows or `b` is zero.
pub open spec fn quotient(a: Fixed, b: Fixed) -> Option<Fixed> {
    paired_option(decimal_quotient(a.mantissa, a.scale, b.mantissa, b.scale))
}

/// `a * b`, or `None` where the multiplication overflows.
pub open spec fn product(a: Fixed, b: Fixed) -> Option<Fixed> {
    paired_option(decimal_product(a.mantissa, a.scale, b.mantissa, b.scale))
}

/// `a - b`, or `None` where the subtraction overflows.
pub open spec fn difference(a: Fixed, b: Fixed) -> Option<Fixed> {
    paired_option(decimal_difference(a.mantissa, a.scale, b.mantissa, b.scale))
}

/// `a + b`, or `None` where the addition overflows.
pub open spec fn sum(a: Fixed, b: Fixed) -> Option<Fixed> {
    paired_option(decimal_sum(a.mantissa, a.scale, b.mantissa, b.scale))
}

/// Calls `Decimal::rescale`. Trusted: the result is the one named
/// `decimal_rescaled`, and it is a valid decimal: a mantissa of at most 96
/// bits and, for a target of at most 28, a scale of at most 28.
#[verifier::external_body]
pub(crate) fn rescale(x: Fixed, target: u32) -> (r: Fixed)
    requires
        x.wf(),
        target <= MAX_SCALE,
    ensures
        r == paired(decimal_rescaled(x.mantissa, x.scale, target)),
        r.wf(),
{
    let mut d = Decimal::from_i128_with_scale(x.mantissa, x.scale);
    d.rescale(target);
    Fixed { mantissa: d.mantissa(), scale: d.scale() }
}

/// Calls `Decimal::checked_div`. Trusted: the result is the one named
/// `decimal_quotient`, and a quotient that is returned is a valid decimal.
#[verifier::external_body]
pub(crate) fn checked_div(a: Fixed, b: Fixed) -> (r: Option<Fixed>)
    requires
        a.wf(),
        b.wf(),
    ensures
        r == paired_option(decimal_quotient(a.mantissa, a.scale, b.mantissa, b.scale)),
        r matches Some(q) ==> q.wf(),
{
    let x = Decimal::from_i128_with_scale(a.mantissa, a.scale);
    let y = Decimal::from_i128_with_scale(b.mantissa, b.scale);
    match x.checked_div(y) {
        Some(d) => Some(Fixed { mantissa: d.mantissa(), scale: d.scale() }),
        None => None,
    }
}

/// Calls `Decimal::checked_mul`. Trusted: the result is the one named
/// `decimal_product`, and a product that is returned is a valid decimal.
#[verifier::external_body]
pub(crate) fn checked_mul(a: Fixed, b: Fixed) -> (r: Option<Fixed>)
    requires
        a.wf(),
        b.wf(),
    ensures
        r == paired_option(decimal_product(a.mantissa, a.scale, b.mantissa, b.scale)),
        r matches Some(p) ==> p.wf(),
{
    let x = Decimal::from_i128_with_scale(a.mantissa, a.scale);
    let y = Decimal::from_i128_with_scale(b.mantissa, b.scale);
    match x.checked_mul(y) {
        Some(d) => Some(Fixed { mantissa: d.mantissa(), scale: d.scale() }),
        None => None,
    }
}

/// Calls `Decimal::checked_sub`. Trusted: the result is the one named
/// `decimal_difference`, and a difference that is returned is a valid
/// decimal.
#[verifier::external_body]
pub(crate) fn checked_sub(a: Fixed, b: Fixed) -> (r: Option<Fixed>)
    requires
        a.wf(),
        b.wf(),
    ensures
        r == paired_option(decimal_difference(a.mantissa, a.scale, b.mantissa, b.scale)),
        r matches Some(d) ==> d.wf(),
{
    let x = Decimal::from_i128_with_scale(a.mantissa, a.scale);
    let y = Decimal::from_i128_with_scale(b.mantissa, b.scale);
    match x.checked_sub(y) {
        Some(d) => Some(Fixed { mantissa: d.mantissa(), scale: d.scale() }),
        None => None,
    }
}

/// Calls `Decimal::checked_add`. Trusted: the result is the one named
/// `decimal_sum`, and a sum that is returned is a valid decimal.
#[verifier::external_body]
pub(crate) fn checked_add(a: Fixed, b: Fixed) -> (r: Option<Fixed>)
    requires
        a.wf(),
        b.wf(),
    ensures
        r == paired_option(decimal_sum(a.mantissa, a.scale, b.mantissa, b.scale)),
        r matches Some(s) ==> s.wf(),
{
    let x = Decimal::from_i128_with_scale(a.mantissa, a.scale);
    let y = Decimal::from_i128_with_scale(b.mantissa, b.scale);
    match x.checked_add(y) {
        Some(d) => Some(Fixed { mantissa: d.mantissa(), scale: d.scale() }),
        None => None,
    }
}

/// Calls `Decimal::round_dp_with_strategy` with `RoundingStrategy::ToZero`.
/// Trusted: a value with at most `places` fractional digits comes back
/// unchanged; otherwise the magnitude of the mantissa is divided by the
/// power of ten that drops the surplus digits, the remainder is discarded,
/// and the scale becomes `places`.
#[verifier::external_body]
pub(crate) fn truncate(x: Fixed, places: u32) -> (r: Fixed)
    requires
        x.wf(),
    ensures
        r == truncated(x, places),
{
    let d = Decimal::from_i128_with_scale(x.mantissa, x.scale);
    let t = d.round_dp_with_strategy(places, RoundingStrategy::ToZero);
    Fixed { mantissa: t.mantissa(), scale: t.scale() }
}

/// Compares two `Decimal`s with `<=`. Trusted: the comparison is by
/// numerical value, whatever the two scales are.
#[verifier::external_body]
pub(crate) fn le(a: Fixed, b: Fixed) -> (r: bool)
    requires
        a.wf(),
        b.wf(),
    ensures
        r == at_most(a, b),
{
    let x = Decimal::from_i128_with_scale(a.mantissa, a.scale);
    let y = Decimal::from_i128_with_scale(b.mantissa, b.scale);
    x <= y
}

/// Cutting digits off never enlarges the mantissa, and leaves at most
/// `places` fractional digits.
pub proof fn lemma_truncated_wf(x: Fixed, places: u32)
    requires
        x.wf(),
    ensures
        truncated(x, places).wf(),
        truncated(x, places).scale <= places,
        truncated(x, places).scale <= x.scale,
        x.mantissa >= 0 ==> 0 <= truncated(x, places).mantissa <= x.mantissa,
        x.mantissa <= 0 ==> x.mantissa <= truncated(x, places).mantissa <= 0,
{
    if x.scale > places {
        let unit = pow(10, (x.scale - places) as nat);
        lemma_pow_positive(10, (x.scale - places) as nat);
        if x.mantissa >= 0 {
            lemma_div_pos_is_pos(x.mantissa as int, unit);
            lemma_div_nonincreasing(x.mantissa as int, unit);
        } else {
            lemma_div_pos_is_pos(-(x.mantissa as int), unit);
            lemma_div_nonincreasing(-(x.mantissa as int), unit);
        }
    }
}

} // verus!
