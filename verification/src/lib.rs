//! Context-based authentication: Galois-field arithmetic, polynomials over
//! GF(2^m), a Reed-Solomon codec, bit packing helpers and the message framing
//! used by two devices that derive a shared key from recorded audio.
use vstd::prelude::*;

pub mod outcome;
pub mod gf;
pub mod poly;
pub mod gfpoly;
pub mod rref;
pub mod rs;
pub mod bits;
pub mod hash;
pub mod pairing;
pub mod field_laws;
pub mod poly_laws;
pub mod rs_laws;
pub mod div_laws;
pub mod decode_laws;
pub mod gf256;
pub mod lfsr_laws;
pub mod rref_laws;
pub mod correction_laws;

