//! Lattice-based public-key encryption from the Learning-With-Errors problem,
//! in three variants (plain, ring and module LWE), and an interactive
//! multiparty key exchange over the same polynomial ring.
//!
//! Every operation is a pure computation on integer vectors; randomness comes
//! from a caller-owned `rand::rngs::StdRng`. Each scheme also offers a
//! deterministic `*_with` form that takes the random values as arguments, and
//! states in its contract exactly what it computes from them. The laws that
//! hold across operations (decryption inverts encryption within the noise
//! margin, multiplication then reduction is the ring product) are proof
//! functions beside the operations.
use vstd::prelude::*;

pub mod sums;
pub mod modular;
pub mod linalg;
pub mod poly;
pub mod ring_algebra;
pub mod encoding;
pub mod noise;
pub mod regev;
pub mod ringlwe;
pub mod module_lwe;
pub mod multiparty;

verus! {

} // verus!
