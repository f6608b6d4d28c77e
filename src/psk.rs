//! Pre-shared key identities, their wire encoding, and the chain that folds a
//! list of resolved PSKs into one secret.

use vstd::prelude::*;

use crate::codec::{copy_bytes, CodecError, lemma_opaque_round_trip, lemma_u16_round_trip, lemma_u64_round_trip, parse_opaque, parse_u16, parse_u64, read_opaque, read_u16, read_u64, read_u8, opaque_spec, push_bytes, push_opaque, push_u16, push_u64, push_u8, u16_spec, u64_spec, OPAQUE_LIMIT};
use crate::crypto::{fill_random, wipe};
use crate::kdf::{
    expand_with_label_spec, extract_spec, kdf_of,
    AwsLcCryptoError, AwsLcHkdf, CipherSuite, KdfId,
};

verus! {

/// Names an out-of-band PSK.
#[derive(Clone, Debug, PartialEq, Eq, Hash)]
pub struct ExternalPskId(pub Vec<u8>);

/// Names a prior group.
#[derive(Clone, Debug, PartialEq, Eq, Hash)]
pub struct PskGroupId(pub Vec<u8>);

/// A random value that makes each use of a PSK distinct.
#[derive(Clone, Debug, PartialEq, Eq, Hash)]
pub struct PskNonce(pub Vec<u8>);

#[derive(Clone, Copy, Debug, PartialEq, Eq, Hash, Structural)]
pub enum ResumptionPSKUsage {
    Application,
    Reinit,
    Branch,
}

/// A PSK taken from an epoch of a group.
#[derive(Clone, Debug, PartialEq, Eq, Hash)]
pub struct ResumptionPsk {
    pub usage: ResumptionPSKUsage,
    pub psk_group_id: PskGroupId,
    pub psk_epoch: u64,
}

#[derive(Clone, Debug, PartialEq, Eq, Hash)]
pub enum JustPreSharedKeyID {
    External(ExternalPskId),
    Resumption(ResumptionPsk),
}

#[derive(Clone, Debug, PartialEq, Eq, Hash)]
pub struct PreSharedKeyID {
    pub key_id: JustPreSharedKeyID,
    pub psk_nonce: PskNonce,
}

/// Secret key material; callers wipe it with `zeroize` when done.
#[derive(Clone, Debug, PartialEq, Eq)]
pub struct Psk(Vec<u8>);

/// The secret handed to members joining at an epoch boundary.
#[derive(Clone, Debug, PartialEq, Eq)]
pub struct JoinerSecret(Vec<u8>);

/// The PSK label used as HKDF context: an identity, its place and the list size.
#[derive(Clone, Debug, PartialEq, Eq)]
pub struct PSKLabel {
    pub id: PreSharedKeyID,
    pub index: u16,
    pub count: u16,
}

/// The abstract content of a `JustPreSharedKeyID`.
pub enum KeyIdModel {
    External(Seq<u8>),
    Resumption(ResumptionPSKUsage, Seq<u8>, u64),
}

impl View for ExternalPskId {
    type V = Seq<u8>;

    open spec fn view(&self) -> Seq<u8> {
        self.0@
    }
}

impl View for PskGroupId {
    type V = Seq<u8>;

    open spec fn view(&self) -> Seq<u8> {
        self.0@
    }
}

impl View for PskNonce {
    type V = Seq<u8>;

    open spec fn view(&self) -> Seq<u8> {
        self.0@
    }
}

impl View for Psk {
    type V = Seq<u8>;

    closed spec fn view(&self) -> Seq<u8> {
        self.0@
    }
}

impl View for JoinerSecret {
    type V = Seq<u8>;

    closed spec fn view(&self) -> Seq<u8> {
        self.0@
    }
}

impl View for ResumptionPsk {
    type V = (ResumptionPSKUsage, Seq<u8>, u64);

    open spec fn view(&self) -> (ResumptionPSKUsage, Seq<u8>, u64) {
        (self.usage, self.psk_group_id@, self.psk_epoch)
    }
}

impl View for JustPreSharedKeyID {
    type V = KeyIdModel;

    open spec fn view(&self) -> KeyIdModel {
        match self {
            JustPreSharedKeyID::External(e) => KeyIdModel::External(e@),
            JustPreSharedKeyID::Resumption(r) => KeyIdModel::Resumption(
                r.usage,
                r.psk_group_id@,
                r.psk_epoch,
            ),
        }
    }
}

impl View for PreSharedKeyID {
    type V = (KeyIdModel, Seq<u8>);

    open spec fn view(&self) -> (KeyIdModel, Seq<u8>) {
        (self.key_id@, self.psk_nonce@)
    }
}

impl View for PSKLabel {
    type V = ((KeyIdModel, Seq<u8>), u16, u16);

    open spec fn view(&self) -> ((KeyIdModel, Seq<u8>), u16, u16) {
        (self.id@, self.index, self.count)
    }
}

/// The wire value of a usage.
pub open spec fn usage_code(u: ResumptionPSKUsage) -> u8 {
    match u {
        ResumptionPSKUsage::Application => 1,
        ResumptionPSKUsage::Reinit => 2,
        ResumptionPSKUsage::Branch => 3,
    }
}

/// The encoded `ResumptionPsk`: usage, group id, epoch.
pub open spec fn resumption_spec(r: (ResumptionPSKUsage, Seq<u8>, u64)) -> Seq<u8> {
    seq![usage_code(r.0)] + opaque_spec(r.1) + u64_spec(r.2)
}

/// The encoded `JustPreSharedKeyID`: a tag, then the body.
pub open spec fn key_id_spec(k: KeyIdModel) -> Seq<u8> {
    match k {
        KeyIdModel::External(e) => seq![1u8] + opaque_spec(e),
        KeyIdModel::Resumption(usage, group, epoch) => seq![2u8] + resumption_spec(
            (usage, group, epoch),
        ),
    }
}

/// The encoded `PreSharedKeyID`.
pub open spec fn psk_id_spec(id: (KeyIdModel, Seq<u8>)) -> Seq<u8> {
    key_id_spec(id.0) + opaque_spec(id.1)
}

/// The encoded `PSKLabel`.
pub open spec fn psk_label_spec(id: (KeyIdModel, Seq<u8>), index: u16, count: u16) -> Seq<u8> {
    psk_id_spec(id) + u16_spec(index) + u16_spec(count)
}

/// When every byte string of an identity fits its size prefix.
pub open spec fn psk_id_encodable(id: (KeyIdModel, Seq<u8>)) -> bool {
    &&& match id.0 {
        KeyIdModel::External(e) => e.len() < OPAQUE_LIMIT,
        KeyIdModel::Resumption(_, group, _) => group.len() < OPAQUE_LIMIT,
    }
    &&& id.1.len() < OPAQUE_LIMIT
    &&& psk_id_spec(id).len() + 4 < OPAQUE_LIMIT
}

impl ExternalPskId {
    pub fn copy(&self) -> (r: ExternalPskId)
        ensures
            r@ == self@,
    {
        ExternalPskId(copy_bytes(self.0.as_slice()))
    }
}

fn push_key_id(out: &mut Vec<u8>, k: &JustPreSharedKeyID) -> (r: Result<(), CodecError>)
    ensures
        r is Ok <==> match k@ {
            KeyIdModel::External(e) => e.len() < OPAQUE_LIMIT,
            KeyIdModel::Resumption(_, g, _) => g.len() < OPAQUE_LIMIT,
        },
        r is Ok ==> final(out)@ == old(out)@ + key_id_spec(k@),
        r matches Err(e) ==> e == CodecError::TooLong,
{
    match k {
        JustPreSharedKeyID::External(e) => {
            if e.0.len() >= OPAQUE_LIMIT {
                return Err(CodecError::TooLong);
            }
            push_u8(out, 1);
            push_opaque(out, e.0.as_slice());
        },
        JustPreSharedKeyID::Resumption(r) => {
            if r.psk_group_id.0.len() >= OPAQUE_LIMIT {
                return Err(CodecError::TooLong);
            }
            push_u8(out, 2);
            let code: u8 = match r.usage {
                ResumptionPSKUsage::Application => 1,
                ResumptionPSKUsage::Reinit => 2,
                ResumptionPSKUsage::Branch => 3,
            };
            push_u8(out, code);
            push_opaque(out, r.psk_group_id.0.as_slice());
            push_u64(out, r.psk_epoch);
        },
    }
    assert(final(out)@ =~= old(out)@ + key_id_spec(k@));
    Ok(())
}

impl PreSharedKeyID {
    /// The wire encoding of this identity.
    pub fn encode(&self) -> (r: Result<Vec<u8>, CodecError>)
        ensures
            r is Ok <==> ({
                &&& match self@.0 {
                    KeyIdModel::External(e) => e.len() < OPAQUE_LIMIT,
                    KeyIdModel::Resumption(_, g, _) => g.len() < OPAQUE_LIMIT,
                }
                &&& self@.1.len() < OPAQUE_LIMIT
            }),
            r matches Ok(v) ==> v@ == psk_id_spec(self@),
            r matches Err(e) ==> e == CodecError::TooLong,
    {
        let mut out: Vec<u8> = Vec::new();
        push_key_id(&mut out, &self.key_id)?;
        if self.psk_nonce.0.len() >= OPAQUE_LIMIT {
            return Err(CodecError::TooLong);
        }
        push_opaque(&mut out, self.psk_nonce.0.as_slice());
        assert(out@ =~= psk_id_spec(self@));
        Ok(out)
    }
}

/// The wire encoding of `PSKLabel { id, index, count }`, refused when it would
/// not fit as HKDF context.
fn encode_psk_label(id: &PreSharedKeyID, index: u16, count: u16) -> (r: Result<Vec<u8>, CodecError>)
    ensures
        r is Ok <==> psk_id_encodable(id@),
        r matches Ok(v) ==> v@ == psk_label_spec(id@, index, count),
        r matches Err(e) ==> e == CodecError::TooLong,
{
    let mut out = id.encode()?;
    if out.len() >= OPAQUE_LIMIT - 4 {
        return Err(CodecError::TooLong);
    }
    push_u16(&mut out, index);
    push_u16(&mut out, count);
    assert(out@ =~= psk_label_spec(id@, index, count));
    Ok(out)
}

impl PSKLabel {
    /// The wire encoding of this label, refused when it would not fit as HKDF
    /// context.
    pub fn encode(&self) -> (r: Result<Vec<u8>, CodecError>)
        ensures
            r is Ok <==> psk_id_encodable(self.id@),
            r matches Ok(v) ==> v@ == psk_label_spec(self.id@, self.index, self.count),
    {
        encode_psk_label(&self.id, self.index, self.count)
    }
}

impl From<Vec<u8>> for Psk {
    fn from(bytes: Vec<u8>) -> (r: Self) {
        Psk(bytes)
    }
}

impl vstd::std_specs::convert::FromSpecImpl<Vec<u8>> for Psk {
    open spec fn obeys_from_spec() -> bool {
        true
    }

    closed spec fn from_spec(v: Vec<u8>) -> Self {
        Psk(v)
    }
}

/// `n` zero bytes.
pub open spec fn zeros(n: nat) -> Seq<u8> {
    Seq::new(n, |i: int| 0u8)
}

fn zero_bytes(n: usize) -> (r: Vec<u8>)
    ensures
        r@ == zeros(n as nat),
{
    let mut out: Vec<u8> = Vec::new();
    let mut i: usize = 0;
    while i < n
        invariant
            i <= n,
            out@ == zeros(i as nat),
        decreases n - i,
    {
        out.push(0);
        i = i + 1;
        assert(out@ =~= zeros(i as nat));
    }
    out
}

impl Drop for Psk {
    /// Wipes the secret.
    fn drop(&mut self)
        opens_invariants none
        no_unwind
    {
        wipe(&mut self.0);
    }
}

impl Drop for JoinerSecret {
    /// Wipes the secret.
    fn drop(&mut self)
        opens_invariants none
        no_unwind
    {
        wipe(&mut self.0);
    }
}

impl Psk {
    /// A secret made of the given bytes.
    pub fn new(bytes: Vec<u8>) -> (r: Psk)
        ensures
            r@ == bytes@,
    {
        Psk(bytes)
    }

    pub fn as_slice(&self) -> (r: &[u8])
        ensures
            r@ == self@,
    {
        self.0.as_slice()
    }

    /// Overwrites the secret and leaves it empty.
    pub fn zeroize(&mut self)
        ensures
            final(self)@.len() == 0,
    {
        wipe(&mut self.0);
    }

    /// The all-zero secret as long as the suite's KDF output.
    pub fn new_zero(cipher_suite: CipherSuite) -> (r: Psk)
        ensures
            r@ == zeros(kdf_of(cipher_suite).output_len()),
    {
        Psk(zero_bytes(cipher_suite.kdf_id().extract_size()))
    }
}

impl JoinerSecret {
    pub fn new(bytes: Vec<u8>) -> (r: JoinerSecret)
        ensures
            r@ == bytes@,
    {
        JoinerSecret(bytes)
    }

    pub fn zeroize(&mut self)
        ensures
            final(self)@.len() == 0,
    {
        wipe(&mut self.0);
    }

    pub fn as_slice(&self) -> (r: &[u8])
        ensures
            r@ == self@,
    {
        self.0.as_slice()
    }
}

impl PskNonce {
    /// A fresh nonce of the suite's KDF output length, drawn from the system RNG.
    pub fn random(cipher_suite: CipherSuite) -> (r: Result<PskNonce, AwsLcCryptoError>)
        ensures
            r matches Ok(n) ==> n@.len() == kdf_of(cipher_suite).output_len(),
            r matches Err(e) ==> e == AwsLcCryptoError::Unspecified,
    {
        let mut buf = zero_bytes(cipher_suite.kdf_id().extract_size());
        match fill_random(&mut buf) {
            Ok(()) => Ok(PskNonce(buf)),
            Err(_) => Err(AwsLcCryptoError::Unspecified),
        }
    }
}

/// Why a PSK secret could not be derived. `PE` and `RE` are the errors of the
/// external and resumption lookups.
#[derive(Debug)]
pub enum PskSecretError<PE, RE> {
    TooManyPskIds(usize),
    NoPskForId(ExternalPskId),
    SecretStoreError(PE),
    KdfError(AwsLcCryptoError),
    SerializationError(CodecError),
    EpochRepositoryError(RE),
    EpochNotFound(u64),
}

/// The bytes "derived psk".
pub open spec fn derived_psk_label() -> Seq<u8> {
    seq![0x64, 0x65, 0x72, 0x69, 0x76, 0x65, 0x64, 0x20, 0x70, 0x73, 0x6b]
}

fn derived_psk_label_bytes() -> (r: Vec<u8>)
    ensures
        r@ == derived_psk_label(),
{
    let mut v: Vec<u8> = Vec::new();
    v.push(0x64);
    v.push(0x65);
    v.push(0x72);
    v.push(0x69);
    v.push(0x76);
    v.push(0x65);
    v.push(0x64);
    v.push(0x20);
    v.push(0x70);
    v.push(0x73);
    v.push(0x6b);
    assert(v@ =~= derived_psk_label());
    v
}

/// One link of the chain: the PSK is extracted, expanded under its label, and
/// used as salt to extract from the previous secret.
pub open spec fn psk_step_spec(
    kdf: KdfId,
    prev: Seq<u8>,
    id: (KeyIdModel, Seq<u8>),
    index: u16,
    count: u16,
    psk: Seq<u8>,
) -> Seq<u8> {
    let extracted = extract_spec(kdf, zeros(kdf.output_len()), psk);
    let input = expand_with_label_spec(
        kdf,
        extracted,
        derived_psk_label(),
        psk_label_spec(id, index, count),
        kdf.output_len() as u16,
    );
    extract_spec(kdf, input, prev)
}

/// The secret after folding the first `ids.len()` identities with their PSKs,
/// starting from zero bytes; `count` is the size of the whole list.
pub open spec fn psk_chain_spec(
    kdf: KdfId,
    ids: Seq<(KeyIdModel, Seq<u8>)>,
    psks: Seq<Seq<u8>>,
    count: u16,
) -> Seq<u8>
    decreases ids.len(),
{
    if ids.len() == 0 {
        zeros(kdf.output_len())
    } else {
        let k = ids.len() - 1;
        psk_step_spec(
            kdf,
            psk_chain_spec(kdf, ids.drop_last(), psks, count),
            ids[k],
            k as u16,
            count,
            psks[k],
        )
    }
}

/// Folds one resolved PSK into the running secret, which is consumed and wiped.
pub fn psk_secret_step<PE, RE>(
    kdf: &AwsLcHkdf,
    prev: Psk,
    id: &PreSharedKeyID,
    index: u16,
    count: u16,
    psk: &Psk,
) -> (r: Result<Psk, PskSecretError<PE, RE>>)
    ensures
        psk_id_encodable(id@) <==> r is Ok,
        r matches Ok(s) ==> s@ == psk_step_spec(kdf.0, prev@, id@, index, count, psk@),
        r matches Ok(s) ==> s@.len() == kdf.0.output_len(),
        r is Err ==> r matches Err(PskSecretError::SerializationError(CodecError::TooLong)),
{
    let mut prev = prev;
    let label_bytes = match encode_psk_label(id, index, count) {
        Ok(b) => b,
        Err(e) => {
            prev.zeroize();
            return Err(PskSecretError::SerializationError(e));
        },
    };
    let size = kdf.extract_size();
    let zero_salt = zero_bytes(size);
    let mut psk_extracted = match kdf.extract(zero_salt.as_slice(), psk.as_slice()) {
        Ok(v) => v,
        Err(e) => {
            prev.zeroize();
            return Err(PskSecretError::KdfError(e));
        },
    };
    let label = derived_psk_label_bytes();
    let res = kdf.expand_with_label(
        psk_extracted.as_slice(),
        label.as_slice(),
        label_bytes.as_slice(),
        size as u16,
    );
    wipe(&mut psk_extracted);
    let mut psk_input = match res {
        Ok(v) => v,
        Err(e) => {
            prev.zeroize();
            return Err(PskSecretError::KdfError(e));
        },
    };
    let next = kdf.extract(psk_input.as_slice(), prev.as_slice());
    wipe(&mut psk_input);
    prev.zeroize();
    match next {
        Ok(v) => Ok(Psk(v)),
        Err(e) => Err(PskSecretError::KdfError(e)),
    }
}

/// The identities as abstract values.
pub open spec fn id_views(ids: Seq<PreSharedKeyID>) -> Seq<(KeyIdModel, Seq<u8>)> {
    ids.map_values(|id: PreSharedKeyID| id@)
}

/// The PSKs as byte sequences.
pub open spec fn psk_views(psks: Seq<Psk>) -> Seq<Seq<u8>> {
    psks.map_values(|p: Psk| p@)
}

/// The lookup that `id` selects returned `psk`.
pub open spec fn resolves_to<P, PE, R, RE>(ext: P, res: R, id: PreSharedKeyID, psk: Psk) -> bool where
    P: Fn(&ExternalPskId) -> Result<Option<Psk>, PE>,
    R: Fn(u64) -> Result<Option<Psk>, RE>,
 {
    match id.key_id {
        JustPreSharedKeyID::External(e) => call_ensures(ext, (&e,), Ok(Some(psk))),
        JustPreSharedKeyID::Resumption(r) => call_ensures(res, (r.psk_epoch,), Ok(Some(psk))),
    }
}

/// The lookup that `id` selects returned some PSK.
pub open spec fn resolved_some<P, PE, R, RE>(ext: P, res: R, id: PreSharedKeyID) -> bool where
    P: Fn(&ExternalPskId) -> Result<Option<Psk>, PE>,
    R: Fn(u64) -> Result<Option<Psk>, RE>,
 {
    exists|p: Psk| resolves_to(ext, res, id, p)
}

/// `id` is external, equal to `e`, and its lookup found nothing.
pub open spec fn external_missing<P, PE>(ext: P, id: PreSharedKeyID, e: Seq<u8>) -> bool where
    P: Fn(&ExternalPskId) -> Result<Option<Psk>, PE>,
 {
    match id.key_id {
        JustPreSharedKeyID::External(x) => x@ == e && call_ensures(ext, (&x,), Ok(None)),
        _ => false,
    }
}

/// `id` is external and its lookup failed with `err`.
pub open spec fn external_failed<P, PE>(ext: P, id: PreSharedKeyID, err: PE) -> bool where
    P: Fn(&ExternalPskId) -> Result<Option<Psk>, PE>,
 {
    match id.key_id {
        JustPreSharedKeyID::External(x) => call_ensures(ext, (&x,), Err(err)),
        _ => false,
    }
}

/// `id` is a resumption PSK of epoch `n` and its lookup found nothing.
pub open spec fn epoch_missing<R, RE>(res: R, id: PreSharedKeyID, n: u64) -> bool where
    R: Fn(u64) -> Result<Option<Psk>, RE>,
 {
    match id.key_id {
        JustPreSharedKeyID::Resumption(r) => r.psk_epoch == n && call_ensures(res, (n,), Ok(None)),
        _ => false,
    }
}

/// `id` is a resumption PSK and its lookup failed with `err`.
pub open spec fn epoch_failed<R, RE>(res: R, id: PreSharedKeyID, err: RE) -> bool where
    R: Fn(u64) -> Result<Option<Psk>, RE>,
 {
    match id.key_id {
        JustPreSharedKeyID::Resumption(r) => call_ensures(res, (r.psk_epoch,), Err(err)),
        _ => false,
    }
}

/// The first `n` identities resolved to the PSKs in `psks`.
pub open spec fn all_resolved<P, PE, R, RE>(
    ext: P,
    res: R,
    ids: Seq<PreSharedKeyID>,
    psks: Seq<Psk>,
    n: int,
) -> bool where
    P: Fn(&ExternalPskId) -> Result<Option<Psk>, PE>,
    R: Fn(u64) -> Result<Option<Psk>, RE>,
 {
    &&& psks.len() == n
    &&& forall|j: int| 0 <= j < n ==> #[trigger] resolves_to(ext, res, ids[j], psks[j])
}

/// What a failed lookup says of the identity `id`.
pub open spec fn lookup_failure<P, PE, R, RE>(ext: P, res: R, id: PreSharedKeyID, e: PskSecretError<PE, RE>) -> bool where
    P: Fn(&ExternalPskId) -> Result<Option<Psk>, PE>,
    R: Fn(u64) -> Result<Option<Psk>, RE>,
 {
    match e {
        PskSecretError::NoPskForId(x) => external_missing(ext, id, x@),
        PskSecretError::SecretStoreError(err) => external_failed(ext, id, err),
        PskSecretError::EpochNotFound(n) => epoch_missing(res, id, n),
        PskSecretError::EpochRepositoryError(err) => epoch_failed(res, id, err),
        _ => false,
    }
}

/// The first `k` identities resolved, in list order, to some PSKs.
pub open spec fn prefix_resolved<P, PE, R, RE>(ext: P, res: R, ids: Seq<PreSharedKeyID>, k: int) -> bool where
    P: Fn(&ExternalPskId) -> Result<Option<Psk>, PE>,
    R: Fn(u64) -> Result<Option<Psk>, RE>,
 {
    exists|psks: Seq<Psk>| all_resolved(ext, res, ids, psks, k)
}

/// `id` encodes, and the lookup it selects can only return a PSK.
pub open spec fn lookup_ready<P, PE, R, RE>(ext: P, res: R, id: PreSharedKeyID) -> bool where
    P: Fn(&ExternalPskId) -> Result<Option<Psk>, PE>,
    R: Fn(u64) -> Result<Option<Psk>, RE>,
 {
    &&& psk_id_encodable(id@)
    &&& match id.key_id {
        JustPreSharedKeyID::External(e) => forall|o: Result<Option<Psk>, PE>|
            #[trigger] call_ensures(ext, (&e,), o) ==> o matches Ok(Some(_)),
        JustPreSharedKeyID::Resumption(r) => forall|o: Result<Option<Psk>, RE>|
            #[trigger] call_ensures(res, (r.psk_epoch,), o) ==> o matches Ok(Some(_)),
    }
}

/// How the step for `id` failed with `e`: its lookup failed, or its lookup
/// returned a PSK and the identity does not encode.
pub open spec fn step_failure<P, PE, R, RE>(ext: P, res: R, id: PreSharedKeyID, e: PskSecretError<PE, RE>) -> bool where
    P: Fn(&ExternalPskId) -> Result<Option<Psk>, PE>,
    R: Fn(u64) -> Result<Option<Psk>, RE>,
 {
    ||| lookup_failure(ext, res, id, e)
    ||| (e matches PskSecretError::SerializationError(CodecError::TooLong)) && !psk_id_encodable(id@)
        && resolved_some(ext, res, id)
}

/// Looks up the PSK that `id` names, in the store its kind selects.
fn resolve_psk<P, PE, R, RE>(
    external_psk_search: &P,
    resumption_psk_search: &R,
    id: &PreSharedKeyID,
) -> (r: Result<Psk, PskSecretError<PE, RE>>) where
    P: Fn(&ExternalPskId) -> Result<Option<Psk>, PE>,
    R: Fn(u64) -> Result<Option<Psk>, RE>,

    requires
        forall|e: &ExternalPskId| #[trigger] call_requires(*external_psk_search, (e,)),
        forall|n: u64| #[trigger] call_requires(*resumption_psk_search, (n,)),
    ensures
        r matches Ok(p) ==> resolves_to(*external_psk_search, *resumption_psk_search, *id, p),
        r matches Err(e) ==> lookup_failure(*external_psk_search, *resumption_psk_search, *id, e),
{
    match &id.key_id {
        JustPreSharedKeyID::External(e) => match external_psk_search(e) {
            Ok(Some(p)) => Ok(p),
            Ok(None) => Err(PskSecretError::NoPskForId(e.copy())),
            Err(err) => Err(PskSecretError::SecretStoreError(err)),
        },
        JustPreSharedKeyID::Resumption(rp) => match resumption_psk_search(rp.psk_epoch) {
            Ok(Some(p)) => Ok(p),
            Ok(None) => Err(PskSecretError::EpochNotFound(rp.psk_epoch)),
            Err(err) => Err(PskSecretError::EpochRepositoryError(err)),
        },
    }
}

/// Folds the PSKs named by `psk_ids`, in order, into one secret. Each PSK is
/// looked up through `external_psk_search` or `resumption_psk_search`.
pub fn psk_secret<P, PE, R, RE>(
    cipher_suite: CipherSuite,
    external_psk_search: P,
    resumption_psk_search: R,
    psk_ids: &[PreSharedKeyID],
) -> (r: Result<Psk, PskSecretError<PE, RE>>) where
    P: Fn(&ExternalPskId) -> Result<Option<Psk>, PE>,
    R: Fn(u64) -> Result<Option<Psk>, RE>,

    requires
        forall|e: &ExternalPskId| #[trigger] call_requires(external_psk_search, (e,)),
        forall|n: u64| #[trigger] call_requires(resumption_psk_search, (n,)),
    ensures
        psk_ids@.len() > 65535 <==> r matches Err(PskSecretError::TooManyPskIds(n)),
        r matches Err(PskSecretError::TooManyPskIds(n)) ==> n == psk_ids@.len(),
        psk_ids@.len() == 0 ==> (r matches Ok(s) && s@ == zeros(kdf_of(cipher_suite).output_len())),
        r is Ok ==> forall|j: int| 0 <= j < psk_ids@.len() ==> #[trigger] resolved_some(
            external_psk_search,
            resumption_psk_search,
            psk_ids@[j],
        ),
        r matches Ok(s) ==> exists|psks: Seq<Psk>|
            {
                &&& all_resolved(
                    external_psk_search,
                    resumption_psk_search,
                    psk_ids@,
                    psks,
                    psk_ids@.len() as int,
                )
                &&& s@ == psk_chain_spec(
                    kdf_of(cipher_suite),
                    id_views(psk_ids@),
                    psk_views(psks),
                    psk_ids@.len() as u16,
                )
            },
        r matches Ok(s) ==> s@.len() == kdf_of(cipher_suite).output_len(),
        psk_ids@.len() <= 65535 && (forall|j: int| 0 <= j < psk_ids@.len() ==> #[trigger] lookup_ready(
            external_psk_search,
            resumption_psk_search,
            psk_ids@[j],
        )) ==> r is Ok,
        !(r matches Err(PskSecretError::KdfError(_))),
        r matches Err(e) ==> (e matches PskSecretError::TooManyPskIds(_)) || exists|k: int|
            0 <= k < psk_ids@.len() && prefix_resolved(
                external_psk_search,
                resumption_psk_search,
                psk_ids@,
                k,
            ) && #[trigger] step_failure(external_psk_search, resumption_psk_search, psk_ids@[k], e),
{
    let len = psk_ids.len();
    if len > 65535 {
        return Err(PskSecretError::TooManyPskIds(len));
    }
    let count = len as u16;
    let kdf = AwsLcHkdf(cipher_suite.kdf_id());
    let mut secret = Psk::new_zero(cipher_suite);
    let ghost mut psks: Seq<Psk> = Seq::empty();
    let mut i: usize = 0;
    while i < len
        invariant
            len == psk_ids@.len(),
            len <= 65535,
            count == len,
            i <= len,
            kdf.0 == kdf_of(cipher_suite),
            forall|e: &ExternalPskId| #[trigger] call_requires(external_psk_search, (e,)),
            forall|n: u64| #[trigger] call_requires(resumption_psk_search, (n,)),
            all_resolved(external_psk_search, resumption_psk_search, psk_ids@, psks, i as int),
            secret@.len() == kdf_of(cipher_suite).output_len(),
            secret@ == psk_chain_spec(
                kdf.0,
                id_views(psk_ids@).take(i as int),
                psk_views(psks),
                count,
            ),
        decreases len - i,
    {
        let id = &psk_ids[i];
        let mut psk = match resolve_psk(&external_psk_search, &resumption_psk_search, id) {
            Ok(p) => p,
            Err(e) => {
                secret.zeroize();
                proof {
                    assert(step_failure(external_psk_search, resumption_psk_search, psk_ids@[i as int], e));
                    assert(prefix_resolved(external_psk_search, resumption_psk_search, psk_ids@, i as int));
                    assert(!lookup_ready(external_psk_search, resumption_psk_search, psk_ids@[i as int]));
                }
                return Err(e);
            },
        };
        assert(resolves_to(external_psk_search, resumption_psk_search, psk_ids@[i as int], psk));
        let ghost prev_psks = psks;
        proof {
            psks = psks.push(psk);
            assert(psk_views(psks).drop_last() == psk_views(prev_psks));
        }
        let next = psk_secret_step(&kdf, secret, id, i as u16, count, &psk);
        psk.zeroize();
        match next {
            Ok(s) => {
                secret = s;
            },
            Err(e) => {
                proof {
                    assert(resolves_to(
                        external_psk_search,
                        resumption_psk_search,
                        psk_ids@[i as int],
                        psks.last(),
                    ));
                    assert(step_failure(external_psk_search, resumption_psk_search, psk_ids@[i as int], e));
                    assert(all_resolved(external_psk_search, resumption_psk_search, psk_ids@, prev_psks, i as int));
                    assert(prefix_resolved(external_psk_search, resumption_psk_search, psk_ids@, i as int));
                    assert(!lookup_ready(external_psk_search, resumption_psk_search, psk_ids@[i as int]));
                }
                return Err(e);
            },
        }
        proof {
            let idv = id_views(psk_ids@);
            assert(idv.take(i + 1).drop_last() =~= idv.take(i as int));
            lemma_chain_depends_on_prefix(kdf.0, idv.take(i as int), psk_views(prev_psks), psk_views(psks), count);
        }
        i = i + 1;
    }
    proof {
        assert(id_views(psk_ids@).take(len as int) =~= id_views(psk_ids@));
        assert forall|j: int| 0 <= j < psk_ids@.len() implies #[trigger] resolved_some(
            external_psk_search,
            resumption_psk_search,
            psk_ids@[j],
        ) by {
            assert(resolves_to(external_psk_search, resumption_psk_search, psk_ids@[j], psks[j]));
        }
    }
    Ok(secret)
}

/// The chain over a list of identities reads only as many PSKs as there are
/// identities: two PSK lists that agree there give the same secret.
pub proof fn lemma_chain_depends_on_prefix(
    kdf: KdfId,
    ids: Seq<(KeyIdModel, Seq<u8>)>,
    psks1: Seq<Seq<u8>>,
    psks2: Seq<Seq<u8>>,
    count: u16,
)
    requires
        psks1.len() >= ids.len(),
        psks2.len() >= ids.len(),
        forall|j: int| 0 <= j < ids.len() ==> psks1[j] == psks2[j],
    ensures
        psk_chain_spec(kdf, ids, psks1, count) == psk_chain_spec(kdf, ids, psks2, count),
    decreases ids.len(),
{
    if ids.len() > 0 {
        lemma_chain_depends_on_prefix(kdf, ids.drop_last(), psks1, psks2, count);
    }
}

/// The epoch secret: extract with the PSK secret as salt and the joiner secret
/// as input keying material.
pub fn get_epoch_secret(
    cipher_suite: CipherSuite,
    psk_secret: &Psk,
    joiner_secret: &JoinerSecret,
) -> (r: Result<Vec<u8>, AwsLcCryptoError>)
    ensures
        r matches Ok(v) && v@ == extract_spec(kdf_of(cipher_suite), psk_secret@, joiner_secret@),
        r matches Ok(v) ==> v@.len() == kdf_of(cipher_suite).output_len(),
{
    let kdf = AwsLcHkdf(cipher_suite.kdf_id());
    kdf.extract(psk_secret.as_slice(), joiner_secret.as_slice())
}

/// Resumption secrets of the current epoch and of earlier epochs kept by the group.
#[derive(Clone, Copy)]
pub struct ResumptionPskSearch<'a> {
    pub current_epoch: u64,
    pub current_secret: &'a Psk,
    pub prior_epochs: &'a [(u64, Psk)],
}

impl<'a> ResumptionPskSearch<'a> {
    /// The resumption secret of `epoch_id`: the current one, or the first prior
    /// epoch recorded under that number.
    pub fn find(&self, epoch_id: u64) -> (r: Option<Psk>)
        ensures
            epoch_id == self.current_epoch ==> (r matches Some(p) && p@ == self.current_secret@),
            epoch_id != self.current_epoch ==> match r {
                Some(p) => exists|j: int|
                    0 <= j < self.prior_epochs@.len() && #[trigger] self.prior_epochs@[j].0
                        == epoch_id && p@ == self.prior_epochs@[j].1@ && forall|k: int|
                        0 <= k < j ==> self.prior_epochs@[k].0 != epoch_id,
                None => forall|j: int|
                    0 <= j < self.prior_epochs@.len() ==> #[trigger] self.prior_epochs@[j].0
                        != epoch_id,
            },
    {
        if epoch_id == self.current_epoch {
            return Some(Psk(copy_bytes(self.current_secret.as_slice())));
        }
        let mut i: usize = 0;
        while i < self.prior_epochs.len()
            invariant
                i <= self.prior_epochs@.len(),
                epoch_id != self.current_epoch,
                forall|k: int| 0 <= k < i ==> #[trigger] self.prior_epochs@[k].0 != epoch_id,
            decreases self.prior_epochs@.len() - i,
        {
            if self.prior_epochs[i].0 == epoch_id {
                let p = Psk(copy_bytes(self.prior_epochs[i].1.as_slice()));
                assert(self.prior_epochs@[i as int].0 == epoch_id);
                return Some(p);
            }
            i = i + 1;
        }
        None
    }
}

pub open spec fn usage_from(b: u8) -> Option<ResumptionPSKUsage> {
    if b == 1 {
        Some(ResumptionPSKUsage::Application)
    } else if b == 2 {
        Some(ResumptionPSKUsage::Reinit)
    } else if b == 3 {
        Some(ResumptionPSKUsage::Branch)
    } else {
        None
    }
}

/// Reads an encoded `ResumptionPsk` and the number of bytes it took.
pub open spec fn parse_resumption(s: Seq<u8>) -> Option<((ResumptionPSKUsage, Seq<u8>, u64), nat)> {
    if s.len() == 0 {
        None
    } else {
        match usage_from(s[0]) {
            None => None,
            Some(u) => match parse_opaque(s.skip(1)) {
                None => None,
                Some((g, k)) => match parse_u64(s.skip((1 + k) as int)) {
                    None => None,
                    Some((e, m)) => Some(((u, g, e), 1 + k + m)),
                },
            },
        }
    }
}

/// Reads an encoded `JustPreSharedKeyID`.
pub open spec fn parse_key_id(s: Seq<u8>) -> Option<(KeyIdModel, nat)> {
    if s.len() == 0 {
        None
    } else if s[0] == 1 {
        match parse_opaque(s.skip(1)) {
            Some((e, k)) => Some((KeyIdModel::External(e), 1 + k)),
            None => None,
        }
    } else if s[0] == 2 {
        match parse_resumption(s.skip(1)) {
            Some((r, k)) => Some((KeyIdModel::Resumption(r.0, r.1, r.2), 1 + k)),
            None => None,
        }
    } else {
        None
    }
}

/// Reads an encoded `PreSharedKeyID`.
pub open spec fn parse_psk_id(s: Seq<u8>) -> Option<((KeyIdModel, Seq<u8>), nat)> {
    match parse_key_id(s) {
        None => None,
        Some((k, n)) => match parse_opaque(s.skip(n as int)) {
            None => None,
            Some((nonce, m)) => Some(((k, nonce), n + m)),
        },
    }
}

/// Reads an encoded `PSKLabel`.
pub open spec fn parse_psk_label(s: Seq<u8>) -> Option<(((KeyIdModel, Seq<u8>), u16, u16), nat)> {
    match parse_psk_id(s) {
        None => None,
        Some((id, n)) => match parse_u16(s.skip(n as int)) {
            None => None,
            Some((index, a)) => match parse_u16(s.skip((n + a) as int)) {
                None => None,
                Some((count, b)) => Some(((id, index, count), n + a + b)),
            },
        },
    }
}

/// An encoded `ResumptionPsk` reads back as itself.
pub proof fn lemma_resumption_round_trip(r: (ResumptionPSKUsage, Seq<u8>, u64), rest: Seq<u8>)
    requires
        r.1.len() < OPAQUE_LIMIT,
    ensures
        parse_resumption(resumption_spec(r) + rest) == Some((r, resumption_spec(r).len())),
{
    let s = resumption_spec(r) + rest;
    let o = opaque_spec(r.1);
    assert(s.skip(1) =~= o + (u64_spec(r.2) + rest));
    lemma_opaque_round_trip(r.1, u64_spec(r.2) + rest);
    assert(s.skip((1 + o.len()) as int) =~= u64_spec(r.2) + rest);
    lemma_u64_round_trip(r.2, rest);
}

/// An encoded `JustPreSharedKeyID` reads back as itself.
pub proof fn lemma_key_id_round_trip(k: KeyIdModel, rest: Seq<u8>)
    requires
        match k {
            KeyIdModel::External(e) => e.len() < OPAQUE_LIMIT,
            KeyIdModel::Resumption(_, g, _) => g.len() < OPAQUE_LIMIT,
        },
    ensures
        parse_key_id(key_id_spec(k) + rest) == Some((k, key_id_spec(k).len())),
{
    let s = key_id_spec(k) + rest;
    match k {
        KeyIdModel::External(e) => {
            assert(s.skip(1) =~= opaque_spec(e) + rest);
            lemma_opaque_round_trip(e, rest);
        },
        KeyIdModel::Resumption(u, g, ep) => {
            assert(s.skip(1) =~= resumption_spec((u, g, ep)) + rest);
            lemma_resumption_round_trip((u, g, ep), rest);
        },
    }
}

/// An encoded `PreSharedKeyID` reads back as itself.
pub proof fn lemma_psk_id_round_trip(id: (KeyIdModel, Seq<u8>), rest: Seq<u8>)
    requires
        match id.0 {
            KeyIdModel::External(e) => e.len() < OPAQUE_LIMIT,
            KeyIdModel::Resumption(_, g, _) => g.len() < OPAQUE_LIMIT,
        },
        id.1.len() < OPAQUE_LIMIT,
    ensures
        parse_psk_id(psk_id_spec(id) + rest) == Some((id, psk_id_spec(id).len())),
{
    let s = psk_id_spec(id) + rest;
    let kb = key_id_spec(id.0);
    assert(s =~= kb + (opaque_spec(id.1) + rest));
    lemma_key_id_round_trip(id.0, opaque_spec(id.1) + rest);
    assert(s.skip(kb.len() as int) =~= opaque_spec(id.1) + rest);
    lemma_opaque_round_trip(id.1, rest);
}

/// An encoded `PSKLabel` reads back as itself.
#[verifier::spinoff_prover]
#[verifier::rlimit(40)]
pub proof fn lemma_psk_label_round_trip(id: (KeyIdModel, Seq<u8>), index: u16, count: u16, rest: Seq<u8>)
    requires
        match id.0 {
            KeyIdModel::External(e) => e.len() < OPAQUE_LIMIT,
            KeyIdModel::Resumption(_, g, _) => g.len() < OPAQUE_LIMIT,
        },
        id.1.len() < OPAQUE_LIMIT,
    ensures
        parse_psk_label(psk_label_spec(id, index, count) + rest) == Some(
            ((id, index, count), psk_label_spec(id, index, count).len()),
        ),
{
    let s = psk_label_spec(id, index, count) + rest;
    let ib = psk_id_spec(id);
    let a = u16_spec(index);
    let b = u16_spec(count);
    let tail = a + (b + rest);
    assert(s =~= ib + tail);
    lemma_psk_id_round_trip(id, tail);
    assert(parse_psk_id(s) == Some((id, ib.len())));
    assert(s.skip(ib.len() as int) =~= tail);
    lemma_u16_round_trip(index, b + rest);
    assert(s.skip((ib.len() + 2) as int) =~= b + rest);
    lemma_u16_round_trip(count, rest);
}

/// An `ExternalPskId` or a `PskNonce` is encoded as a prefixed string, and
/// reads back as itself.
pub proof fn lemma_external_id_and_nonce_round_trip(e: ExternalPskId, nonce: PskNonce, rest: Seq<u8>)
    requires
        e@.len() < OPAQUE_LIMIT,
        nonce@.len() < OPAQUE_LIMIT,
    ensures
        parse_opaque(opaque_spec(e@) + rest) == Some((e@, opaque_spec(e@).len())),
        parse_opaque(opaque_spec(nonce@) + rest) == Some((nonce@, opaque_spec(nonce@).len())),
{
    lemma_opaque_round_trip(e@, rest);
    lemma_opaque_round_trip(nonce@, rest);
}

fn decode_key_id(s: &[u8], pos: usize) -> (r: Option<(JustPreSharedKeyID, usize)>)
    requires
        pos <= s@.len(),
    ensures
        r is Some <==> parse_key_id(s@.skip(pos as int)) is Some,
        r matches Some((k, n)) ==> parse_key_id(s@.skip(pos as int)) == Some((k@, n as nat)) && pos + n <= s@.len(),
{
    let ghost t = s@.skip(pos as int);
    let len = s.len();
    let tag = read_u8(s, pos)?;
    assert(t.skip(1) =~= s@.skip(pos + 1));
    if tag == 1 {
        let (e, k) = read_opaque(s, pos + 1)?;
        Some((JustPreSharedKeyID::External(ExternalPskId(e)), 1 + k))
    } else if tag == 2 {
        let ghost t1 = s@.skip(pos + 1);
        let u = read_u8(s, pos + 1)?;
        let usage = if u == 1 {
            ResumptionPSKUsage::Application
        } else if u == 2 {
            ResumptionPSKUsage::Reinit
        } else if u == 3 {
            ResumptionPSKUsage::Branch
        } else {
            return None;
        };
        assert(t1.skip(1) =~= s@.skip(pos + 2));
        let (g, k) = read_opaque(s, pos + 2)?;
        assert(t1.skip(1 + k) =~= s@.skip(pos + 2 + k));
        let epoch = read_u64(s, pos + 2 + k)?;
        Some((
            JustPreSharedKeyID::Resumption(ResumptionPsk { usage, psk_group_id: PskGroupId(g), psk_epoch: epoch }),
            2 + k + 8,
        ))
    } else {
        None
    }
}

impl PreSharedKeyID {
    fn decode_at(s: &[u8], pos: usize) -> (r: Option<(PreSharedKeyID, usize)>)
        requires
            pos <= s@.len(),
        ensures
            r is Some <==> parse_psk_id(s@.skip(pos as int)) is Some,
            r matches Some((id, n)) ==> parse_psk_id(s@.skip(pos as int)) == Some((id@, n as nat)) && pos + n <= s@.len(),
    {
        let ghost t = s@.skip(pos as int);
        let len = s.len();
        let (key_id, n) = decode_key_id(s, pos)?;
        assert(t.skip(n as int) =~= s@.skip(pos + n));
        let (nonce, m) = read_opaque(s, pos + n)?;
        Some((PreSharedKeyID { key_id, psk_nonce: PskNonce(nonce) }, n + m))
    }

    /// Reads an identity from the start of `bytes`, with the number of bytes it took.
    pub fn decode(bytes: &[u8]) -> (r: Result<(PreSharedKeyID, usize), CodecError>)
        ensures
            r is Ok <==> parse_psk_id(bytes@) is Some,
            r matches Ok((id, n)) ==> parse_psk_id(bytes@) == Some((id@, n as nat)),
    {
        assert(bytes@.skip(0) =~= bytes@);
        match Self::decode_at(bytes, 0) {
            Some(x) => Ok(x),
            None => Err(CodecError::Malformed),
        }
    }
}

impl PSKLabel {
    /// Reads a label from the start of `bytes`, with the number of bytes it took.
    pub fn decode(bytes: &[u8]) -> (r: Result<(PSKLabel, usize), CodecError>)
        ensures
            r is Ok <==> parse_psk_label(bytes@) is Some,
            r matches Ok((l, n)) ==> parse_psk_label(bytes@) == Some((l@, n as nat)),
    {
        assert(bytes@.skip(0) =~= bytes@);
        let (id, n) = match PreSharedKeyID::decode_at(bytes, 0) {
            Some(x) => x,
            None => {
                return Err(CodecError::Malformed);
            },
        };
        let index = match read_u16(bytes, n) {
            Some(v) => v,
            None => {
                return Err(CodecError::Malformed);
            },
        };
        if n + 2 > bytes.len() {
            return Err(CodecError::Malformed);
        }
        let count = match read_u16(bytes, n + 2) {
            Some(v) => v,
            None => {
                return Err(CodecError::Malformed);
            },
        };
        Ok((PSKLabel { id, index, count }, n + 4))
    }
}

/// A policy hook that decides which external PSK identities a group accepts.
pub trait ExternalPskIdValidator {
    type Error;

    fn validate(&self, psk_id: &ExternalPskId) -> Result<(), Self::Error>;
}

impl<F: ExternalPskIdValidator> ExternalPskIdValidator for &F {
    type Error = F::Error;

    fn validate(&self, psk_id: &ExternalPskId) -> Result<(), Self::Error> {
        (**self).validate(psk_id)
    }
}

/// Accepts every identity.
#[derive(Clone, Copy, Debug)]
pub struct PassThroughPskIdValidator;

impl ExternalPskIdValidator for PassThroughPskIdValidator {
    type Error = std::convert::Infallible;

    fn validate(&self, psk_id: &ExternalPskId) -> (r: Result<(), std::convert::Infallible>)
        ensures
            r is Ok,
    {
        Ok(())
    }
}

} // verus!
