//! Cipher suites, the HKDF variants they select, and the key derivation
//! operations built on them.

use vstd::prelude::*;

use crate::codec::{opaque_spec, push_bytes, push_opaque, push_u16, push_u8, u16_spec, OPAQUE_LIMIT};
use crate::crypto::{hmac_output, hmac_sign, wipe};

verus! {

/// The MLS cipher suites this library knows.
#[derive(Clone, Copy, Debug, PartialEq, Eq, Structural)]
pub enum CipherSuite {
    Curve25519Aes128,
    P256Aes128,
    Curve25519Chacha,
    Curve448Aes256,
    P521Aes256,
    Curve448Chacha,
    P384Aes256,
}

/// The HKDF variants, one per hash function.
#[derive(Clone, Copy, Debug, PartialEq, Eq, Structural)]
pub enum KdfId {
    HkdfSha256,
    HkdfSha384,
    HkdfSha512,
}

/// The KDF that each cipher suite uses.
pub open spec fn kdf_of(cs: CipherSuite) -> KdfId {
    match cs {
        CipherSuite::Curve25519Aes128 | CipherSuite::P256Aes128 | CipherSuite::Curve25519Chacha => {
            KdfId::HkdfSha256
        },
        CipherSuite::P384Aes256 => KdfId::HkdfSha384,
        CipherSuite::Curve448Chacha | CipherSuite::Curve448Aes256 | CipherSuite::P521Aes256 => {
            KdfId::HkdfSha512
        },
    }
}

impl CipherSuite {
    /// The KDF this suite uses.
    pub fn kdf_id(&self) -> (r: KdfId)
        ensures
            r == kdf_of(*self),
    {
        match self {
            CipherSuite::Curve25519Aes128 | CipherSuite::P256Aes128
            | CipherSuite::Curve25519Chacha => KdfId::HkdfSha256,
            CipherSuite::P384Aes256 => KdfId::HkdfSha384,
            CipherSuite::Curve448Chacha | CipherSuite::Curve448Aes256
            | CipherSuite::P521Aes256 => KdfId::HkdfSha512,
        }
    }
}

impl KdfId {
    /// The hash output length in bytes.
    pub open spec fn output_len(self) -> nat {
        match self {
            KdfId::HkdfSha256 => 32,
            KdfId::HkdfSha384 => 48,
            KdfId::HkdfSha512 => 64,
        }
    }

    /// The identifier from RFC 9180, Table 3.
    pub open spec fn code(self) -> u16 {
        match self {
            KdfId::HkdfSha256 => 1,
            KdfId::HkdfSha384 => 2,
            KdfId::HkdfSha512 => 3,
        }
    }

    pub fn new(cipher_suite: CipherSuite) -> (r: Option<Self>)
        ensures
            r == Some(kdf_of(cipher_suite)),
    {
        Some(cipher_suite.kdf_id())
    }

    pub fn extract_size(&self) -> (r: usize)
        ensures
            r == self.output_len(),
    {
        match self {
            KdfId::HkdfSha256 => 32,
            KdfId::HkdfSha384 => 48,
            KdfId::HkdfSha512 => 64,
        }
    }
}

/// Failures of the key derivation operations.
#[derive(Clone, Copy, Debug, PartialEq, Eq, Structural)]
pub enum AwsLcCryptoError {
    /// The KDF identifier names none of the supported hash functions.
    InvalidKeyData,
    /// The primitive failed, for instance on an output length out of range.
    Unspecified,
}

/// HKDF-Extract: the HMAC of `ikm` keyed by `salt`.
pub open spec fn extract_spec(kdf: KdfId, salt: Seq<u8>, ikm: Seq<u8>) -> Seq<u8> {
    hmac_output(kdf, salt, ikm)
}

/// The block T(i) of HKDF-Expand (RFC 5869, section 2.3): T(0) is empty and
/// T(i) = HMAC(PRK, T(i-1) | info | i).
pub open spec fn expand_block(kdf: KdfId, prk: Seq<u8>, info: Seq<u8>, i: nat) -> Seq<u8>
    decreases i,
{
    if i == 0 {
        Seq::empty()
    } else {
        hmac_output(kdf, prk, expand_block(kdf, prk, info, (i - 1) as nat) + info + seq![i as u8])
    }
}

/// T(1) | T(2) | ... | T(n).
pub open spec fn expand_blocks(kdf: KdfId, prk: Seq<u8>, info: Seq<u8>, n: nat) -> Seq<u8>
    decreases n,
{
    if n == 0 {
        Seq::empty()
    } else {
        expand_blocks(kdf, prk, info, (n - 1) as nat) + expand_block(kdf, prk, info, n)
    }
}

/// The number of blocks that `len` output bytes need.
pub open spec fn block_count(kdf: KdfId, len: nat) -> nat {
    ((len + kdf.output_len() - 1) / (kdf.output_len() as int)) as nat
}

/// HKDF-Expand to `len` bytes: the first `len` bytes of the joined blocks.
pub open spec fn expand_spec(kdf: KdfId, prk: Seq<u8>, info: Seq<u8>, len: nat) -> Seq<u8> {
    expand_blocks(kdf, prk, info, block_count(kdf, len)).take(len as int)
}

/// When `expand` can produce its output: at most 255 hash blocks.
pub open spec fn expand_accepts(kdf: KdfId, len: nat) -> bool {
    len <= 255 * kdf.output_len()
}

/// The bytes "MLS 1.0 ".
pub open spec fn label_prefix() -> Seq<u8> {
    seq![0x4d, 0x4c, 0x53, 0x20, 0x31, 0x2e, 0x30, 0x20]
}

/// The encoded `KDFLabel { length, label: "MLS 1.0 " ++ label, context }`.
pub open spec fn kdf_label_spec(len: u16, label: Seq<u8>, context: Seq<u8>) -> Seq<u8> {
    u16_spec(len) + opaque_spec(label_prefix() + label) + opaque_spec(context)
}

/// When the label and context fit the encoding.
pub open spec fn kdf_label_encodable(label: Seq<u8>, context: Seq<u8>) -> bool {
    label.len() + 8 < OPAQUE_LIMIT && context.len() < OPAQUE_LIMIT
}

/// The MLS ExpandWithLabel construction.
pub open spec fn expand_with_label_spec(
    kdf: KdfId,
    secret: Seq<u8>,
    label: Seq<u8>,
    context: Seq<u8>,
    len: u16,
) -> Seq<u8> {
    expand_spec(kdf, secret, kdf_label_spec(len, label, context), len as nat)
}

pub fn encode_kdf_label(len: u16, label: &[u8], context: &[u8]) -> (r: Vec<u8>)
    requires
        kdf_label_encodable(label@, context@),
    ensures
        r@ == kdf_label_spec(len, label@, context@),
{
    let mut full: Vec<u8> = Vec::new();
    full.push(0x4d);
    full.push(0x4c);
    full.push(0x53);
    full.push(0x20);
    full.push(0x31);
    full.push(0x2e);
    full.push(0x30);
    full.push(0x20);
    assert(full@ =~= label_prefix());
    push_bytes(&mut full, label);
    let mut out: Vec<u8> = Vec::new();
    push_u16(&mut out, len);
    push_opaque(&mut out, full.as_slice());
    push_opaque(&mut out, context);
    assert(out@ =~= kdf_label_spec(len, label@, context@));
    out
}

/// The KDF operations the key schedule consumes.
pub trait KdfType {
    type Error;

    /// The KDF identifier from RFC 9180, Table 3.
    fn kdf_id(&self) -> u16;

    fn expand(&self, prk: &[u8], info: &[u8], len: usize) -> Result<Vec<u8>, Self::Error>;

    fn extract(&self, salt: &[u8], ikm: &[u8]) -> Result<Vec<u8>, Self::Error>;

    fn extract_size(&self) -> usize;
}

/// An HKDF instance over one of the supported hash functions.
#[derive(Clone, Copy, Debug, PartialEq, Eq, Structural)]
pub struct AwsLcHkdf(pub KdfId);

impl AwsLcHkdf {
    pub fn new(cipher_suite: CipherSuite) -> (r: Option<Self>)
        ensures
            r == Some(AwsLcHkdf(kdf_of(cipher_suite))),
    {
        Some(AwsLcHkdf(cipher_suite.kdf_id()))
    }

    pub fn kdf_id(&self) -> (r: u16)
        ensures
            r == self.0.code(),
    {
        match self.0 {
            KdfId::HkdfSha256 => 1,
            KdfId::HkdfSha384 => 2,
            KdfId::HkdfSha512 => 3,
        }
    }

    pub fn extract_size(&self) -> (r: usize)
        ensures
            r == self.0.output_len(),
    {
        self.0.extract_size()
    }

    /// HKDF-Extract; its output is one hash block.
    pub fn extract(&self, salt: &[u8], ikm: &[u8]) -> (r: Result<Vec<u8>, AwsLcCryptoError>)
        ensures
            r matches Ok(v) && v@ == extract_spec(self.0, salt@, ikm@),
            r matches Ok(v) && v@.len() == self.0.output_len(),
    {
        Ok(hmac_sign(self.0, salt, ikm))
    }

    /// HKDF-Expand of `prk` over `info` to `len` bytes, built from HMAC as
    /// RFC 5869 defines it, for a key of any length. More than 255 hash blocks
    /// are refused with `Unspecified`.
    pub fn expand(&self, prk: &[u8], info: &[u8], len: usize) -> (r: Result<
        Vec<u8>,
        AwsLcCryptoError,
    >)
        ensures
            !expand_accepts(self.0, len as nat) ==> r == Err::<Vec<u8>, _>(
                AwsLcCryptoError::Unspecified,
            ),
            expand_accepts(self.0, len as nat) ==> (r matches Ok(v) && v@ == expand_spec(
                self.0,
                prk@,
                info@,
                len as nat,
            ) && v@.len() == len),
    {
        let h = self.0.extract_size();
        if len / 255 > h || (len / 255 == h && len % 255 > 0) {
            return Err(AwsLcCryptoError::Unspecified);
        }
        let n: usize = (len + h - 1) / h;
        assert(n == block_count(self.0, len as nat));
        assert(n <= 255);
        assert(n * h >= len) by (nonlinear_arith)
            requires
                n as int == (len + h - 1) as int / h as int,
                h >= 32,
        ;
        let mut out: Vec<u8> = Vec::new();
        let mut prev: Vec<u8> = Vec::new();
        let mut i: usize = 1;
        while i <= n
            invariant
                1 <= i <= n + 1,
                n <= 255,
                h == self.0.output_len(),
                out@ == expand_blocks(self.0, prk@, info@, (i - 1) as nat),
                out@.len() == (i - 1) * h,
                prev@ == expand_block(self.0, prk@, info@, (i - 1) as nat),
            decreases n + 1 - i,
        {
            let mut msg: Vec<u8> = Vec::new();
            push_bytes(&mut msg, prev.as_slice());
            push_bytes(&mut msg, info);
            push_u8(&mut msg, i as u8);
            assert(msg@ =~= expand_block(self.0, prk@, info@, (i - 1) as nat) + info@ + seq![i as u8]);
            let t = hmac_sign(self.0, prk, msg.as_slice());
            assert(t@ == expand_block(self.0, prk@, info@, i as nat));
            wipe(&mut msg);
            push_bytes(&mut out, t.as_slice());
            assert(out@ == expand_blocks(self.0, prk@, info@, i as nat));
            wipe(&mut prev);
            prev = t;
            assert(out@.len() == i * h) by (nonlinear_arith)
                requires
                    out@.len() == (i - 1) * h + h,
            ;
            i = i + 1;
        }
        wipe(&mut prev);
        assert(out@.len() >= len) by (nonlinear_arith)
            requires
                out@.len() == (i - 1) * h,
                i - 1 == n,
                n * h >= len,
        ;
        out.truncate(len);
        assert(out@ =~= expand_spec(self.0, prk@, info@, len as nat));
        Ok(out)
    }

    /// ExpandWithLabel: expand under the encoded `KDFLabel`.
    pub fn expand_with_label(&self, secret: &[u8], label: &[u8], context: &[u8], len: u16) -> (r:
        Result<Vec<u8>, AwsLcCryptoError>)
        requires
            kdf_label_encodable(label@, context@),
        ensures
            !expand_accepts(self.0, len as nat) ==> r == Err::<Vec<u8>, _>(
                AwsLcCryptoError::Unspecified,
            ),
            expand_accepts(self.0, len as nat) ==> (r matches Ok(v) && v@
                == expand_with_label_spec(self.0, secret@, label@, context@, len) && v@.len() == len),
    {
        let info = encode_kdf_label(len, label, context);
        self.expand(secret, info.as_slice(), len as usize)
    }
}

impl KdfType for AwsLcHkdf {
    type Error = AwsLcCryptoError;

    fn kdf_id(&self) -> u16 {
        AwsLcHkdf::kdf_id(self)
    }

    fn expand(&self, prk: &[u8], info: &[u8], len: usize) -> Result<Vec<u8>, AwsLcCryptoError> {
        AwsLcHkdf::expand(self, prk, info, len)
    }

    fn extract(&self, salt: &[u8], ikm: &[u8]) -> Result<Vec<u8>, AwsLcCryptoError> {
        AwsLcHkdf::extract(self, salt, ikm)
    }

    fn extract_size(&self) -> usize {
        AwsLcHkdf::extract_size(self)
    }
}

} // verus!
