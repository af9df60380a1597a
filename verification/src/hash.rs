//! SHA-512 digests of the symbols that the devices exchange.
use vstd::prelude::*;
use sha2::Digest;
use crate::bits::{from_usize, usizes_to_bytes};

verus! {

/// The SHA-512 digest of a byte sequence.
pub uninterp spec fn sha512_of(data: Seq<u8>) -> Seq<u8>;

/// Calls `sha2::Sha512::digest`; trusted to return the digest of `data`, a
/// function of `data` alone, 64 bytes long (the output size of SHA-512).
#[verifier::external_body]
pub(crate) fn sha512(data: &[u8]) -> (r: Vec<u8>)
    ensures
        r@ == sha512_of(data@),
        r@.len() == 64,
{
    sha2::Sha512::digest(data).to_vec()
}

/// The SHA-512 digest of the big-endian bytes of the symbols.
pub fn hash_symbols(symbols: &[usize]) -> (r: Vec<u8>)
    ensures
        r@ == sha512_of(usizes_to_bytes(symbols@)),
        r@.len() == 64,
{
    let bytes = from_usize(symbols);
    sha512(bytes.as_slice())
}

} // verus!
