//! Keccak-256 digests, computed by tiny-keccak.

use vstd::prelude::*;

verus! {

/// The Keccak-256 digest of `data`.
pub uninterp spec fn keccak256_of(data: Seq<u8>) -> Seq<u8>;

/// Relies on tiny_keccak's `Keccak::v256`, `Hasher::update` and
/// `Hasher::finalize`: a fresh Keccak-256 context absorbs `data` and
/// squeezes 32 bytes, which depend on `data` alone.
#[verifier::external_body]
pub(crate) fn keccak256(data: &[u8]) -> (r: [u8; 32])
    ensures
        r@ == keccak256_of(data@),
{
    let mut hasher = tiny_keccak::Keccak::v256();
    tiny_keccak::Hasher::update(&mut hasher, data);
    let mut out = [0u8; 32];
    tiny_keccak::Hasher::finalize(hasher, &mut out);
    out
}

/// The eight bytes of `v`, least significant first.
pub open spec fn le_bytes(v: u64) -> Seq<u8> {
    crate::encoding::le_digits(v as nat, 8)
}

/// Hashes `input` followed by the little-endian bytes of `nonce`.
pub fn keccak256_with_nonce(input: &[u8], nonce: u64) -> (r: Vec<u8>)
    requires
        input@.len() + 8 <= usize::MAX,
    ensures
        r@ == keccak256_of(input@ + le_bytes(nonce)),
        r@.len() == 32,
{
    let mut data: Vec<u8> = Vec::new();
    crate::encoding::append_bytes(&mut data, input);
    let nonce_bytes = crate::encoding::le_digits_of(nonce, 8);
    crate::encoding::append_bytes(&mut data, nonce_bytes.as_slice());
    let digest = keccak256(data.as_slice());
    let mut out: Vec<u8> = Vec::new();
    let mut j: usize = 0;
    while j < 32
        invariant
            j <= 32,
            out@ == digest@.take(j as int),
        decreases 32 - j,
    {
        out.push(digest[j]);
        j = j + 1;
        proof {
            assert(out@ =~= digest@.take(j as int));
        }
    }
    assert(digest@.take(32) =~= digest@);
    out
}

} // verus!
