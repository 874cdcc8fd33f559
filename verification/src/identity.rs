//! Content identity: a stable, content-addressed identifier for byte payloads.

use vstd::prelude::*;

verus! {

/// The BLAKE3 digest of the bytes, rendered as 64 lowercase hexadecimal
/// characters, as `blake3::hash` computes it: a function of the exact input
/// bytes alone.
pub uninterp spec fn blake3_hex_of(data: Seq<u8>) -> Seq<char>;

/// Relies on `blake3::hash` and `blake3::Hash::to_hex`: the digest depends on
/// the input bytes alone, and `to_hex` renders its 32 bytes as 64 lowercase
/// hexadecimal characters.
#[verifier::external_body]
fn blake3_hex(data: &[u8]) -> (r: String)
    ensures
        r@ == blake3_hex_of(data@),
        r@.len() == 64,
{
    blake3::hash(data).to_hex().to_string()
}

/// The content-addressed identifier of a byte payload: identical bytes always
/// yield the identical fixed-length identifier.
pub fn generate_id_from_bytes(data: &[u8]) -> (r: String)
    ensures
        r@ == blake3_hex_of(data@),
        r@.len() == 64,
{
    blake3_hex(data)
}

/// Law (determinism): content identity is a function of the bytes — two byte
/// sequences that are equal have the same identifier, however often it is
/// recomputed. (That differing bytes collide only with negligible probability
/// is a property of the hash, not stated here.)
pub proof fn lemma_identity_deterministic(a: Seq<u8>, b: Seq<u8>)
    requires
        a == b,
    ensures
        blake3_hex_of(a) == blake3_hex_of(b),
{
}

} // verus!
