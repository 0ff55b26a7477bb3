//! Public-key arithmetic layer for the BLS12-381 pairing curve: canonical
//! point encoding, subgroup validation, cofactor clearing, and a delegation
//! gateway that hands the heavy group operations to an external computation
//! provider while validating everything that crosses the boundary.

use vstd::prelude::*;

pub mod bytes;
pub mod field;
pub mod g1;
pub mod g2;
pub mod laws;
pub mod pairing;

verus! {

/// Errors surfaced by decoding and by the delegation gateway.
#[derive(Clone, Copy, Debug, PartialEq, Eq, Structural)]
pub enum Error {
    /// The byte string has the wrong length, inconsistent flag bits, or a
    /// flag that disagrees with the requested mode.
    MalformedEncoding,
    /// The decoded coordinates do not satisfy the curve equation.
    NotOnCurve,
    /// The point is on the curve but outside the prime-order subgroup.
    NotInSubgroup,
    /// The external computation provider returned bytes that fail the
    /// structural decode; this indicates a deployment defect, not bad input.
    ProviderContractViolation,
}

} // verus!
