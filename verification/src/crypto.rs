//! Hash functions, hex encoding and signature checks used by the consensus
//! logic, provided by the `blake3`, `sha2`, `hex` and `ed25519-dalek` crates.
use vstd::prelude::*;
use vstd::string::StringSliceAdditionalSpecFns;

verus! {

/// The BLAKE3 digest of `data`, as `blake3::hash` computes it.
pub uninterp spec fn blake3_digest(data: Seq<u8>) -> [u8; 32];

/// The SHA-256 digest of `data`, as `sha2::Sha256::digest` computes it.
pub uninterp spec fn sha256_digest(data: Seq<u8>) -> [u8; 32];

/// Whether `ed25519-dalek` accepts `sig` as a signature by the public key
/// `key` over `msg` (the key decodes, the signature is 64 bytes and verifies).
pub uninterp spec fn ed25519_accepts(key: [u8; 32], msg: Seq<u8>, sig: Seq<u8>) -> bool;

/// BLAKE3 of `data` (`blake3::hash`). Feeding several pieces into an
/// incremental `blake3::Hasher` gives this digest of their concatenation.
#[verifier::external_body]
pub(crate) fn blake3_hash(data: &[u8]) -> (r: [u8; 32])
    ensures
        r == blake3_digest(data@),
{
    *blake3::hash(data).as_bytes()
}

/// SHA-256 of `data` (`sha2::Sha256::digest`).
#[verifier::external_body]
pub(crate) fn sha256(data: &[u8]) -> (r: [u8; 32])
    ensures
        r == sha256_digest(data@),
{
    <sha2::Sha256 as sha2::Digest>::digest(data).into()
}

/// Domain-separated BLAKE3: the digest of `domain` followed by `data`.
pub open spec fn domain_hash(domain: Seq<u8>, data: Seq<u8>) -> [u8; 32] {
    blake3_digest(domain + data)
}

/// Domain-separated BLAKE3 hash of `data` under the tag `domain`.
pub fn blake3_hash_domain(domain: &[u8], data: &[u8]) -> (r: [u8; 32])
    ensures
        r == domain_hash(domain@, data@),
{
    let mut buf: Vec<u8> = Vec::new();
    append_bytes(&mut buf, domain);
    append_bytes(&mut buf, data);
    blake3_hash(buf.as_slice())
}

/// Append all of `src` to `dst`.
pub fn append_bytes(dst: &mut Vec<u8>, src: &[u8])
    ensures
        final(dst)@ == old(dst)@ + src@,
{
    let mut i: usize = 0;
    let ghost start = dst@;
    while i < src.len()
        invariant
            i <= src@.len(),
            dst@ == start + src@.subrange(0, i as int),
        decreases src@.len() - i,
    {
        dst.push(src[i]);
        i = i + 1;
        proof {
            assert(src@.subrange(0, i as int) =~= src@.subrange(0, i - 1).push(src@[i - 1]));
        }
    }
    proof {
        assert(src@.subrange(0, src@.len() as int) =~= src@);
    }
}

/// Constant-time equality of two byte strings (`subtle::ConstantTimeEq::ct_eq`
/// on slices): true exactly when they have the same length and bytes.
#[verifier::external_body]
pub(crate) fn ct_eq_bytes(a: &[u8], b: &[u8]) -> (r: bool)
    ensures
        r == (a@ == b@),
{
    bool::from(subtle::ConstantTimeEq::ct_eq(a, b))
}

/// Lower-case hexadecimal digit for a value below 16.
pub open spec fn hex_digit(v: int) -> char {
    if v < 10 {
        (v + 48) as char
    } else {
        (v + 87) as char
    }
}

/// Lower-case hexadecimal encoding: two digits per byte, high nibble first.
pub open spec fn hex_lower(bytes: Seq<u8>) -> Seq<char> {
    Seq::new(
        2 * bytes.len(),
        |i: int|
            if i % 2 == 0 {
                hex_digit(bytes[i / 2] as int / 16)
            } else {
                hex_digit(bytes[i / 2] as int % 16)
            },
    )
}

/// Lower-case hexadecimal encoding of `bytes` (`hex::encode`).
#[verifier::external_body]
pub(crate) fn hex_encode(bytes: &[u8]) -> (r: String)
    ensures
        r@ == hex_lower(bytes@),
{
    hex::encode(bytes)
}

/// Check an Ed25519 signature given as raw bytes against a raw 32-byte
/// public key (`ed25519_dalek::VerifyingKey::from_bytes` followed by
/// `Verifier::verify`). A key that does not decode or a signature that is
/// not 64 bytes long is rejected.
#[verifier::external_body]
pub(crate) fn ed25519_verify(key: &[u8; 32], msg: &[u8], sig: &[u8]) -> (r: bool)
    ensures
        r == ed25519_accepts(*key, msg@, sig@),
        sig@.len() != 64 ==> !r,
{
    let bytes: [u8; 64] = match sig.try_into() {
        Ok(b) => b,
        Err(_) => return false,
    };
    match ed25519_dalek::VerifyingKey::from_bytes(key) {
        Ok(pk) => ed25519_dalek::Verifier::verify(
            &pk,
            msg,
            &ed25519_dalek::Signature::from_bytes(&bytes),
        ).is_ok(),
        Err(_) => false,
    }
}

} // verus!
