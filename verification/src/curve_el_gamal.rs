//! ElGamal over the Ristretto-encoded Curve25519 elliptic curve.

use vstd::prelude::*;

verus! {

/// Marker for the ElGamal cryptosystem over the Ristretto group.
///
/// The curve cryptosystem consumes a curve-arithmetic library wholesale and
/// contributes no arithmetic of its own beyond wiring, so its key
/// generation, encryption and homomorphic point operations live with the
/// application shell around this core; the core itself only names the
/// system.
pub struct CurveElGamal;

} // verus!
