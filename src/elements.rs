//! What a set of mean elements must satisfy before it is propagated, and the
//! ways in which propagation fails.
use vstd::prelude::*;
use crate::decimal::{lemma_pow10_bound, lemma_pow10_mono, pow10, Decimal};
use crate::tle::TLE;

verus! {

/// Why an element set gives no position.
#[derive(Clone, Copy, Debug, PartialEq, Eq, Structural)]
pub enum PropagationError {
    /// Mean motion is not positive, or eccentricity is outside `[0, 1)`, or
    /// the orbit is too degenerate to initialize.
    InvalidElements,
    /// Perigee has fallen to or below the Earth's surface.
    Decayed,
    /// Kepler's equation did not converge within the iteration cap.
    KeplerNonConvergence,
}

/// The number that `d` stands for is greater than zero.
pub open spec fn is_positive(d: Decimal) -> bool {
    d.mantissa > 0
}

/// The number that `d` stands for is less than one: `m * 10^a < 10^b`, where
/// `a` and `b` are the positive and negative parts of the exponent.
pub open spec fn is_below_one(d: Decimal) -> bool {
    let up: nat = if d.exponent >= 0 { d.exponent as nat } else { 0 };
    let down: nat = if d.exponent < 0 { (-d.exponent) as nat } else { 0 };
    d.mantissa * pow10(up) < pow10(down)
}

/// Mean motion is positive and eccentricity lies in `[0, 1)`.
pub open spec fn elements_valid(t: TLE) -> bool {
    is_positive(t.mean_motion) && t.e.mantissa >= 0 && is_below_one(t.e)
}

pub proof fn lemma_pow10_positive(n: nat)
    ensures
        pow10(n) >= 1,
    decreases n,
{
    if n > 0 {
        lemma_pow10_positive((n - 1) as nat);
    }
}

/// Tells whether `d` stands for a number less than one.
pub fn below_one(d: Decimal) -> (r: bool)
    ensures
        r == is_below_one(d),
{
    let ghost up: nat = if d.exponent >= 0 { d.exponent as nat } else { 0 };
    let ghost down: nat = if d.exponent < 0 { (-d.exponent) as nat } else { 0 };
    proof {
        lemma_pow10_positive(up);
        lemma_pow10_positive(down);
    }
    if d.mantissa <= 0 {
        assert(d.mantissa * pow10(up) <= 0) by (nonlinear_arith)
            requires
                d.mantissa <= 0,
                pow10(up) >= 1,
        ;
        return true;
    }
    if d.exponent >= 0 {
        assert(d.mantissa * pow10(up) >= 1) by (nonlinear_arith)
            requires
                d.mantissa >= 1,
                pow10(up) >= 1,
        ;
        return false;
    }
    let k: u32 = (0 - (d.exponent as i64)) as u32;
    assert(down == k);
    if k >= 19 {
        proof {
            reveal_with_fuel(pow10, 20);
            lemma_pow10_mono(19, down);
        }
        return true;
    }
    let mut p: u64 = 1;
    let mut j: u32 = 0;
    while j < k
        invariant
            j <= k <= 18,
            p == pow10(j as nat),
        decreases k - j,
    {
        proof {
            lemma_pow10_bound((j + 1) as nat);
        }
        p = p * 10;
        j = j + 1;
    }
    (d.mantissa as u64) < p
}

/// Checks the elements that the propagation divides by or takes roots of.
pub fn validate_elements(tle: &TLE) -> (r: Result<(), PropagationError>)
    ensures
        r is Ok <==> elements_valid(*tle),
        r is Err ==> r == Err::<(), PropagationError>(PropagationError::InvalidElements),
{
    if tle.mean_motion.mantissa <= 0 || tle.e.mantissa < 0 || !below_one(tle.e) {
        Err(PropagationError::InvalidElements)
    } else {
        Ok(())
    }
}

/// An element set whose eccentricity is one or more is never accepted for
/// propagation.
pub proof fn lemma_open_orbit_rejected(t: TLE)
    requires
        !is_below_one(t.e),
    ensures
        !elements_valid(t),
{
}

} // verus!
