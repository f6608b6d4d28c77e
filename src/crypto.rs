//! The primitives this library takes from aws-lc-rs and zeroize.

use vstd::prelude::*;

use crate::kdf::KdfId;

verus! {

#[verifier::external_type_specification]
#[verifier::external_body]
pub struct ExUnspecified(aws_lc_rs::error::Unspecified);

/// The HMAC tag of `msg` under `key`, with the hash of `kdf`.
pub uninterp spec fn hmac_output(kdf: KdfId, key: Seq<u8>, msg: Seq<u8>) -> Seq<u8>;

/// The digest of `data` under the hash of `kdf`.
pub uninterp spec fn digest_output(kdf: KdfId, data: Seq<u8>) -> Seq<u8>;

/// Relies on aws_lc_rs::hmac::Key::new (which takes a key of any length) and
/// aws_lc_rs::hmac::sign: the tag is a function of algorithm, key and message,
/// and is as long as the hash output.
#[verifier::external_body]
pub(crate) fn hmac_sign(kdf: KdfId, key: &[u8], msg: &[u8]) -> (r: Vec<u8>)
    ensures
        r@ == hmac_output(kdf, key@, msg@),
        r@.len() == kdf.output_len(),
{
    let alg = match kdf {
        KdfId::HkdfSha256 => aws_lc_rs::hmac::HMAC_SHA256,
        KdfId::HkdfSha384 => aws_lc_rs::hmac::HMAC_SHA384,
        KdfId::HkdfSha512 => aws_lc_rs::hmac::HMAC_SHA512,
    };
    aws_lc_rs::hmac::sign(&aws_lc_rs::hmac::Key::new(alg, key), msg).as_ref().to_vec()
}

/// Relies on aws_lc_rs::digest::digest: the digest is a function of algorithm
/// and data, and is as long as the hash output.
#[verifier::external_body]
pub(crate) fn hash_digest(kdf: KdfId, data: &[u8]) -> (r: Vec<u8>)
    ensures
        r@ == digest_output(kdf, data@),
        r@.len() == kdf.output_len(),
{
    let alg = match kdf {
        KdfId::HkdfSha256 => &aws_lc_rs::digest::SHA256,
        KdfId::HkdfSha384 => &aws_lc_rs::digest::SHA384,
        KdfId::HkdfSha512 => &aws_lc_rs::digest::SHA512,
    };
    aws_lc_rs::digest::digest(alg, data).as_ref().to_vec()
}

/// Relies on aws_lc_rs::rand::fill: it overwrites the bytes in place and keeps
/// the length.
#[verifier::external_body]
pub(crate) fn fill_random(buf: &mut Vec<u8>) -> (r: Result<(), aws_lc_rs::error::Unspecified>)
    ensures
        final(buf)@.len() == old(buf)@.len(),
{
    aws_lc_rs::rand::fill(buf.as_mut_slice())
}

/// Relies on zeroize's `Zeroize` for `Vec`: the bytes are overwritten and the
/// vector is left empty. It only writes zeros and clears, so it cannot unwind.
#[verifier::external_body]
pub(crate) fn wipe(v: &mut Vec<u8>)
    ensures
        final(v)@.len() == 0,
    opens_invariants none
    no_unwind
{
    zeroize::Zeroize::zeroize(v)
}

/// Relies on aws_lc_rs::constant_time::verify_slices_are_equal: `Ok` exactly when
/// the slices are equal, compared in time independent of their contents.
#[verifier::external_body]
pub(crate) fn ct_eq(a: &[u8], b: &[u8]) -> (r: bool)
    ensures
        r == (a@ == b@),
{
    aws_lc_rs::constant_time::verify_slices_are_equal(a, b).is_ok()
}

} // verus!
