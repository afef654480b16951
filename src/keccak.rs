//! Content keys: the Keccak-256 digest of a value.
use tiny_keccak::Hasher;
use vstd::prelude::*;

verus! {

/// The Keccak-256 digest of a byte string, as computed by `tiny_keccak`.
pub uninterp spec fn keccak_of(data: Seq<u8>) -> Seq<u8>;

/// Relies on tiny_keccak's `Keccak::v256` hasher (`update`, then `finalize` into a
/// 32-byte buffer): the digest of `data`, which fills the whole buffer.
#[verifier::external_body]
fn keccak256(data: &[u8]) -> (r: Vec<u8>)
    ensures
        r@ == keccak_of(data@),
        r@.len() == 32,
{
    let mut hasher = tiny_keccak::Keccak::v256();
    hasher.update(data);
    let mut out = [0u8; 32];
    hasher.finalize(&mut out);
    out.to_vec()
}

/// The content key of `value`: its 32-byte Keccak-256 digest.
pub fn content_key(value: &[u8]) -> (r: Vec<u8>)
    ensures
        r@ == keccak_of(value@),
        r@.len() == 32,
{
    keccak256(value)
}

} // verus!
