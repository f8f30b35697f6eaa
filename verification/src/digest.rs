//! BLAKE3 digests, through the `blake3` crate.

use vstd::prelude::*;
use crate::text::{hex, hex_vec, lemma_hex_len, lower_hex, lemma_hex_lower};

verus! {

/// The 32-byte BLAKE3-256 digest `blake3::hash` computes for `input`.
pub uninterp spec fn blake3_digest(input: Seq<u8>) -> Seq<u8>;

/// `blake3::hash`: returns the digest of `input` as its raw bytes. The
/// contract names the result and claims nothing of its value beyond being
/// the digest of exactly these bytes.
#[verifier::external_body]
fn blake3_hash(input: &[u8]) -> (digest: [u8; 32])
    ensures
        digest@ == blake3_digest(input@),
{
    *blake3::hash(input).as_bytes()
}

/// The digest of `input` as a byte vector.
pub fn digest_bytes(input: &[u8]) -> (out: Vec<u8>)
    ensures
        out@ == blake3_digest(input@),
        out@.len() == 32,
{
    let digest = blake3_hash(input);
    let mut out: Vec<u8> = Vec::new();
    let mut i: usize = 0;
    while i < 32
        invariant
            i <= 32,
            digest@.len() == 32,
            out@ == digest@.subrange(0, i as int),
        decreases 32 - i,
    {
        out.push(digest[i]);
        assert(digest@.subrange(0, i + 1) =~= digest@.subrange(0, i as int).push(digest@[i as int]));
        i = i + 1;
    }
    assert(digest@.subrange(0, 32) =~= digest@);
    out
}

/// Lowercase hexadecimal of the digest of `input`, as `Hash::to_hex` writes it.
pub open spec fn digest_hex(input: Seq<u8>) -> Seq<char> {
    hex(blake3_digest(input))
}

pub fn digest_hex_vec(input: &[u8]) -> (out: Vec<char>)
    ensures
        out@ == digest_hex(input@),
        out@.len() == 64,
        lower_hex(out@),
{
    let digest = digest_bytes(input);
    proof { lemma_hex_len(digest@); lemma_hex_lower(digest@); }
    hex_vec(digest.as_slice())
}

} // verus!
