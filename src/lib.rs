//! Two-line element sets for the SGP4 orbit model: the fixed-column record
//! decoder and the checks that a set of mean elements must pass before it is
//! propagated. Numbers are kept exactly, as decimal mantissa and exponent.
use vstd::prelude::*;

pub mod decimal;
pub mod tle;
pub mod elements;

verus! {

} // verus!
