//! SHA-256 and the fixed-width little-endian encodings that feed it.

use sha2::{Digest, Sha256};
use vstd::bytes::{spec_u64_to_le_bytes, u64_to_le_bytes};
use vstd::prelude::*;

verus! {

/// The SHA-256 digest of a byte sequence, as the `sha2` crate computes it.
pub uninterp spec fn sha256(data: Seq<u8>) -> Seq<u8>;

/// Calls `Sha256::digest`. Trusted: the result is the SHA-256 digest of
/// `data`, which is 32 bytes long.
#[verifier::external_body]
pub(crate) fn sha256_digest(data: &[u8]) -> (digest: Vec<u8>)
    ensures
        digest@ == sha256(data@),
        digest@.len() == 32,
{
    Sha256::digest(data).to_vec()
}

/// The two's-complement image of a signed 64-bit number.
pub open spec fn unsigned_image(x: i64) -> u64 {
    if x >= 0 {
        x as u64
    } else {
        (x + 0x1_0000_0000_0000_0000) as u64
    }
}

/// Eight little-endian bytes of an unsigned number.
pub open spec fn le_bytes(x: u64) -> Seq<u8> {
    spec_u64_to_le_bytes(x)
}

/// Eight little-endian bytes of a signed number, in two's complement.
pub open spec fn le_bytes_signed(x: i64) -> Seq<u8> {
    spec_u64_to_le_bytes(unsigned_image(x))
}

/// Appends the eight little-endian bytes of `x` to `out`.
pub(crate) fn push_le(out: &mut Vec<u8>, x: u64)
    ensures
        final(out)@ == old(out)@ + le_bytes(x),
{
    let mut bytes = u64_to_le_bytes(x);
    out.append(&mut bytes);
}

/// Appends the eight little-endian two's-complement bytes of `x` to `out`.
pub(crate) fn push_le_signed(out: &mut Vec<u8>, x: i64)
    ensures
        final(out)@ == old(out)@ + le_bytes_signed(x),
{
    let image: u64 = if x >= 0 {
        x as u64
    } else {
        u64::MAX - ((-(x + 1)) as u64)
    };
    push_le(out, image);
}

} // verus!
