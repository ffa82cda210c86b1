//! The deterministic value generator: one step of the Park-Miller
//! multiplicative congruential method in decimal fixed point.
//!
//! With `a = 16807`, `m = 2147483647`, `q = 127773` and `r = 2836`, all held
//! at ten fractional digits, a domain value `v` is mapped to
//!
//! ```text
//! seed  = v
//! hi    = seed / q, cut to an integer
//! lo    = seed - q * hi
//! next  = a * lo - r * hi, plus m where that is not positive
//! value = next / m, cut to ten fractional digits
//! ```
//!
//! and the result is the mantissa of `value`.

use vstd::prelude::*;
use vstd::arithmetic::power::{pow, lemma_pow_increases, lemma_pow0, lemma_pow_positive};
use crate::fixed::{
    checked_add, checked_div, checked_mul, checked_sub, difference, le, lemma_truncated_wf,
    product, quotient, rescale, rescaled, sum, truncate, truncated, Fixed,
};

verus! {

/// Number of fractional digits that the generator works with.
pub const PRECISION: u32 = 10;

/// Largest mantissa of a generated value: `10^PRECISION`, which stands for 1.
pub const UNIT: u64 = 10_000_000_000;

/// Why the generator has no value for an input.
#[derive(Clone, Copy, Debug, PartialEq, Eq, Structural)]
pub enum GeneratorError {
    /// A decimal operation overflowed.
    Overflow,
    /// The generated value has a negative mantissa.
    NegativeMantissa,
    /// The generated value exceeds 1.
    AboveOne,
}

/// The integer `n` at the working precision.
pub open spec fn working(n: i128) -> Fixed {
    rescaled(Fixed { mantissa: n, scale: 0 }, PRECISION)
}

/// The multiplier `a`.
pub open spec fn multiplier() -> Fixed {
    working(16807)
}

/// The modulus `m`.
pub open spec fn modulus() -> Fixed {
    working(2147483647)
}

/// `q`, the modulus divided by the multiplier.
pub open spec fn ratio_q() -> Fixed {
    working(127773)
}

/// `r`, the modulus modulo the multiplier.
pub open spec fn ratio_r() -> Fixed {
    working(2836)
}

/// `hi` and `lo` of a seed.
pub open spec fn halves(seed: Fixed) -> Result<(Fixed, Fixed), GeneratorError> {
    match quotient(seed, ratio_q()) {
        None => Err(GeneratorError::Overflow),
        Some(ratio) => {
            let hi = rescaled(truncated(ratio, 0), PRECISION);
            match product(ratio_q(), hi) {
                None => Err(GeneratorError::Overflow),
                Some(whole) => match difference(seed, whole) {
                    None => Err(GeneratorError::Overflow),
                    Some(rest) => Ok((hi, rescaled(rest, PRECISION))),
                },
            }
        },
    }
}

/// `raw` where it is positive, and `raw + m` where it is not.
pub open spec fn wrapped(raw: Fixed) -> Result<Fixed, GeneratorError> {
    if raw.mantissa <= 0 {
        match sum(raw, modulus()) {
            None => Err(GeneratorError::Overflow),
            Some(shifted) => Ok(shifted),
        }
    } else {
        Ok(raw)
    }
}

/// The next seed `a * lo - r * hi`, wrapped into the positive range.
pub open spec fn advanced(hi: Fixed, lo: Fixed) -> Result<Fixed, GeneratorError> {
    match product(multiplier(), lo) {
        None => Err(GeneratorError::Overflow),
        Some(left) => match product(ratio_r(), hi) {
            None => Err(GeneratorError::Overflow),
            Some(right) => match difference(left, right) {
                None => Err(GeneratorError::Overflow),
                Some(raw) => wrapped(raw),
            },
        },
    }
}

/// The mantissa of `ratio` cut to the working precision, where that value
/// lies between 0 and 1.
pub open spec fn finished(ratio: Fixed) -> Result<u64, GeneratorError> {
    let value = truncated(ratio, PRECISION);
    if value.mantissa < 0 {
        Err(GeneratorError::NegativeMantissa)
    } else if value.mantissa > pow(10, value.scale as nat) {
        Err(GeneratorError::AboveOne)
    } else {
        Ok(value.mantissa as u64)
    }
}

/// What the generator yields for the domain value `v`.
pub open spec fn outcome(v: i64) -> Result<u64, GeneratorError> {
    match halves(working(v as i128)) {
        Err(e) => Err(e),
        Ok((hi, lo)) => match advanced(hi, lo) {
            Err(e) => Err(e),
            Ok(next) => match quotient(next, modulus()) {
                None => Err(GeneratorError::Overflow),
                Some(ratio) => finished(ratio),
            },
        },
    }
}

/// The generator is a function of the domain value alone: what it yields
/// for a value once, it yields for that value always.
pub proof fn lemma_generator_deterministic(
    v: i64,
    first: Result<u64, GeneratorError>,
    second: Result<u64, GeneratorError>,
)
    requires
        first == outcome(v),
        second == outcome(v),
    ensures
        first == second,
{
}

proof fn lemma_unit()
    ensures
        pow(10, PRECISION as nat) == UNIT,
{
    reveal_with_fuel(pow, 11);
}

/// Cuts `ratio` to the working precision and hands out its mantissa, after
/// checking that the value lies between 0 and 1.
pub fn finish(ratio: Fixed) -> (r: Result<u64, GeneratorError>)
    requires
        ratio.wf(),
    ensures
        r == finished(ratio),
        r matches Ok(x) ==> x <= UNIT,
{
    let value = truncate(ratio, PRECISION);
    let one = Fixed::from_i64(1);
    proof {
        lemma_truncated_wf(ratio, PRECISION);
        lemma_pow0(10);
        lemma_unit();
        lemma_pow_increases(10, value.scale as nat, PRECISION as nat);
        lemma_pow_positive(10, value.scale as nat);
        assert(value.mantissa * 1 == value.mantissa);
        assert(1 * pow(10, value.scale as nat) == pow(10, value.scale as nat));
    }
    if value.mantissa < 0 {
        Err(GeneratorError::NegativeMantissa)
    } else if !le(value, one) {
        Err(GeneratorError::AboveOne)
    } else {
        Ok(value.mantissa as u64)
    }
}

/// The generator's constants, each at the working precision.
pub struct Lehmer {
    a: Fixed,
    m: Fixed,
    q: Fixed,
    r: Fixed,
}

impl Lehmer {
    #[verifier::type_invariant]
    spec fn constants_hold(&self) -> bool {
        &&& self.a == multiplier() && self.a.wf()
        &&& self.m == modulus() && self.m.wf()
        &&& self.q == ratio_q() && self.q.wf()
        &&& self.r == ratio_r() && self.r.wf()
    }

    /// The constants `a`, `m`, `q` and `r` that the generator holds.
    pub closed spec fn constants(&self) -> (Fixed, Fixed, Fixed, Fixed) {
        (self.a, self.m, self.q, self.r)
    }

    /// Prepares the constants.
    pub fn new() -> (g: Self)
        ensures
            g.constants() == (multiplier(), modulus(), ratio_q(), ratio_r()),
    {
        Lehmer {
            a: rescale(Fixed::from_i64(16807), PRECISION),
            m: rescale(Fixed::from_i64(2147483647), PRECISION),
            q: rescale(Fixed::from_i64(127773), PRECISION),
            r: rescale(Fixed::from_i64(2836), PRECISION),
        }
    }

    /// The domain value `v` as a seed.
    pub fn seed(&self, v: i64) -> (s: Fixed)
        ensures
            s == working(v as i128),
            s.wf(),
    {
        rescale(Fixed::from_i64(v), PRECISION)
    }

    /// Splits a seed into `hi = seed / q` cut to an integer, and
    /// `lo = seed - q * hi`.
    pub fn split(&self, seed: Fixed) -> (r: Result<(Fixed, Fixed), GeneratorError>)
        requires
            seed.wf(),
        ensures
            r == halves(seed),
            r matches Ok(parts) ==> parts.0.wf() && parts.1.wf(),
    {
        proof {
            use_type_invariant(self);
        }
        let ratio = match checked_div(seed, self.q) {
            Some(x) => x,
            None => { return Err(GeneratorError::Overflow); },
        };
        let whole_ratio = truncate(ratio, 0);
        proof {
            lemma_truncated_wf(ratio, 0);
        }
        let hi = rescale(whole_ratio, PRECISION);
        let whole = match checked_mul(self.q, hi) {
            Some(x) => x,
            None => { return Err(GeneratorError::Overflow); },
        };
        let rest = match checked_sub(seed, whole) {
            Some(x) => x,
            None => { return Err(GeneratorError::Overflow); },
        };
        Ok((hi, rescale(rest, PRECISION)))
    }

    /// Brings a seed that is not positive into the positive range by
    /// adding the modulus.
    pub fn wrap(&self, raw: Fixed) -> (r: Result<Fixed, GeneratorError>)
        requires
            raw.wf(),
        ensures
            r == wrapped(raw),
            r matches Ok(next) ==> next.wf(),
    {
        proof {
            use_type_invariant(self);
            lemma_pow0(10);
            lemma_pow_positive(10, raw.scale as nat);
            assert(raw.mantissa * 1 == raw.mantissa);
            assert(0 * pow(10, raw.scale as nat) == 0);
        }
        let zero = Fixed::from_i64(0);
        if le(raw, zero) {
            match checked_add(raw, self.m) {
                Some(shifted) => Ok(shifted),
                None => Err(GeneratorError::Overflow),
            }
        } else {
            Ok(raw)
        }
    }

    /// Computes the next seed `a * lo - r * hi`, wrapped into the positive
    /// range.
    pub fn advance(&self, hi: Fixed, lo: Fixed) -> (r: Result<Fixed, GeneratorError>)
        requires
            hi.wf(),
            lo.wf(),
        ensures
            r == advanced(hi, lo),
            r matches Ok(next) ==> next.wf(),
    {
        proof {
            use_type_invariant(self);
        }
        let left = match checked_mul(self.a, lo) {
            Some(x) => x,
            None => { return Err(GeneratorError::Overflow); },
        };
        let right = match checked_mul(self.r, hi) {
            Some(x) => x,
            None => { return Err(GeneratorError::Overflow); },
        };
        let raw = match checked_sub(left, right) {
            Some(x) => x,
            None => { return Err(GeneratorError::Overflow); },
        };
        self.wrap(raw)
    }

    /// Maps the domain value `v` to the mantissa of its pseudo-random
    /// fraction.
    pub fn generate(&self, v: i64) -> (r: Result<u64, GeneratorError>)
        ensures
            r == outcome(v),
            r matches Ok(x) ==> x <= UNIT,
    {
        proof {
            use_type_invariant(self);
        }
        let seed = self.seed(v);
        let (hi, lo) = match self.split(seed) {
            Ok(parts) => parts,
            Err(e) => { return Err(e); },
        };
        let next = match self.advance(hi, lo) {
            Ok(x) => x,
            Err(e) => { return Err(e); },
        };
        let ratio = match checked_div(next, self.m) {
            Some(x) => x,
            None => { return Err(GeneratorError::Overflow); },
        };
        finish(ratio)
    }
}

} // verus!
