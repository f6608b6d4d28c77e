use std::convert::Infallible;

use aws_lc_rs::hkdf::{Salt, HKDF_SHA256, HKDF_SHA384, HKDF_SHA512};
use aws_lc_rs::hmac;
use aws_mls::kdf::{AwsLcCryptoError, AwsLcHkdf, CipherSuite, KdfId};
use aws_mls::psk::{
    get_epoch_secret, psk_secret, ExternalPskId, JoinerSecret, JustPreSharedKeyID, PSKLabel,
    PreSharedKeyID, Psk, PskGroupId, PskNonce, PskSecretError, ResumptionPSKUsage, ResumptionPsk,
    ResumptionPskSearch,
};
use aws_mls::psk::{ExternalPskIdValidator, PassThroughPskIdValidator};
use tls_codec::Serialize;

const TEST_CIPHER_SUITE: CipherSuite = CipherSuite::Curve25519Aes128;

const ALL_SUITES: [CipherSuite; 7] = [
    CipherSuite::Curve25519Aes128,
    CipherSuite::P256Aes128,
    CipherSuite::Curve25519Chacha,
    CipherSuite::Curve448Aes256,
    CipherSuite::P521Aes256,
    CipherSuite::Curve448Chacha,
    CipherSuite::P384Aes256,
];

fn digest_size(cipher_suite: CipherSuite) -> usize {
    KdfId::new(cipher_suite).unwrap().extract_size()
}

fn make_nonce(cipher_suite: CipherSuite) -> PskNonce {
    PskNonce::random(cipher_suite).unwrap()
}

fn make_external_psk_id(cipher_suite: CipherSuite) -> ExternalPskId {
    ExternalPskId(make_nonce(cipher_suite).0)
}

fn wrap_external_psk_id(cipher_suite: CipherSuite, id: ExternalPskId) -> PreSharedKeyID {
    PreSharedKeyID {
        key_id: JustPreSharedKeyID::External(id),
        psk_nonce: make_nonce(cipher_suite),
    }
}

fn secret_of(
    cipher_suite: CipherSuite,
    store: &[(Vec<u8>, Vec<u8>)],
    ids: &[PreSharedKeyID],
) -> Vec<u8> {
    let res = psk_secret(
        cipher_suite,
        |id: &ExternalPskId| {
            Ok::<_, Infallible>(
                store
                    .iter()
                    .find(|(k, _)| *k == id.0)
                    .map(|(_, v)| Psk::from(v.clone())),
            )
        },
        |_| Ok::<_, Infallible>(None),
        ids,
    );
    match res {
        Ok(p) => p.as_slice().to_vec(),
        Err(e) => panic!("psk_secret failed: {:?}", e),
    }
}

#[test]
fn unknown_id_leads_to_error() {
    let expected_id = make_external_psk_id(TEST_CIPHER_SUITE);
    let res = psk_secret(
        TEST_CIPHER_SUITE,
        |_| Ok::<_, Infallible>(None),
        |_| Ok::<_, Infallible>(None),
        &[wrap_external_psk_id(TEST_CIPHER_SUITE, expected_id.clone())],
    );
    assert!(matches!(res, Err(PskSecretError::NoPskForId(actual_id)) if actual_id == expected_id));
}

fn varint(n: usize) -> Vec<u8> {
    if n < 64 {
        vec![n as u8]
    } else if n < 16384 {
        vec![0x40 | (n >> 8) as u8, n as u8]
    } else {
        vec![0x80 | (n >> 24) as u8, (n >> 16) as u8, (n >> 8) as u8, n as u8]
    }
}

/// The PSK secret computed with aws-lc-rs's own HKDF API, independently of the
/// library's code.
fn reference_psk_secret(cs: CipherSuite, entries: &[(Vec<u8>, Vec<u8>, Vec<u8>)]) -> Vec<u8> {
    let (hkdf_alg, hmac_alg, l) = match KdfId::new(cs).unwrap() {
        KdfId::HkdfSha256 => (HKDF_SHA256, hmac::HMAC_SHA256, 32usize),
        KdfId::HkdfSha384 => (HKDF_SHA384, hmac::HMAC_SHA384, 48),
        KdfId::HkdfSha512 => (HKDF_SHA512, hmac::HMAC_SHA512, 64),
    };
    let n = entries.len();
    let mut secret = vec![0u8; l];
    for (i, (id, psk, nonce)) in entries.iter().enumerate() {
        let mut label = vec![1u8];
        label.extend(varint(id.len()));
        label.extend_from_slice(id);
        label.extend(varint(nonce.len()));
        label.extend_from_slice(nonce);
        label.extend_from_slice(&(i as u16).to_be_bytes());
        label.extend_from_slice(&(n as u16).to_be_bytes());
        let mut info = (l as u16).to_be_bytes().to_vec();
        info.extend(varint(19));
        info.extend_from_slice(b"MLS 1.0 derived psk");
        info.extend(varint(label.len()));
        info.extend_from_slice(&label);
        let prk = Salt::new(hkdf_alg, &vec![0u8; l]).extract(psk);
        let info_parts = [info.as_slice()];
        let mut psk_input = vec![0u8; l];
        prk.expand(&info_parts, hkdf_alg).unwrap().fill(&mut psk_input).unwrap();
        let key = hmac::Key::new(hmac_alg, &psk_input);
        secret = hmac::sign(&key, &secret).as_ref().to_vec();
    }
    secret
}

#[test]
fn expected_psk_secret_is_produced() {
    for cs in ALL_SUITES {
        for n in 1..=10 {
            let mut store = Vec::new();
            let mut ids = Vec::new();
            let mut entries = Vec::new();
            for _ in 0..n {
                let id = make_external_psk_id(cs);
                let psk = make_nonce(cs).0;
                let nonce = make_nonce(cs);
                entries.push((id.0.clone(), psk.clone(), nonce.0.clone()));
                store.push((id.0.clone(), psk));
                ids.push(PreSharedKeyID { key_id: JustPreSharedKeyID::External(id), psk_nonce: nonce });
            }
            let out = secret_of(cs, &store, &ids);
            assert_eq!(out.len(), digest_size(cs));
            assert_eq!(out, reference_psk_secret(cs, &entries));
        }
    }
}

#[test]
fn random_generation_of_nonces_is_random() {
    let good = ALL_SUITES.iter().all(|&cipher_suite| {
        let nonce = make_nonce(cipher_suite);
        std::iter::repeat_with(|| make_nonce(cipher_suite))
            .take(1000)
            .all(|other| other != nonce)
    });
    assert!(good);
}

#[test]
fn nonce_has_extract_size() {
    for cs in ALL_SUITES {
        assert_eq!(make_nonce(cs).0.len(), digest_size(cs));
    }
}

#[test]
fn empty_psk_list_gives_zero_secret() {
    assert_eq!(secret_of(TEST_CIPHER_SUITE, &[], &[]), vec![0u8; 32]);
    assert_eq!(secret_of(CipherSuite::P384Aes256, &[], &[]), vec![0u8; 48]);
    assert_eq!(secret_of(CipherSuite::P521Aes256, &[], &[]), vec![0u8; 64]);
}

fn expected_single_external_vector() -> Vec<u8> {
    // HKDF-Extract(zeros, psk) then Expand under the label, through aws-lc-rs's own HKDF.
    let psk = [1u8; 32];
    let mut label = vec![0x01, 0x20];
    label.extend_from_slice(&[0u8; 32]);
    label.push(0x20);
    label.extend_from_slice(&[0u8; 32]);
    label.extend_from_slice(&[0x00, 0x00, 0x00, 0x01]);
    let mut info = vec![0x00, 0x20, 0x13];
    info.extend_from_slice(b"MLS 1.0 derived psk");
    info.extend_from_slice(&[0x40, label.len() as u8]);
    info.extend_from_slice(&label);
    let prk = Salt::new(HKDF_SHA256, &[0u8; 32]).extract(&psk);
    let info_parts = [info.as_slice()];
    let okm = prk.expand(&info_parts, HKDF_SHA256).unwrap();
    let mut psk_input = [0u8; 32];
    okm.fill(&mut psk_input).unwrap();
    let key = hmac::Key::new(hmac::HMAC_SHA256, &psk_input);
    hmac::sign(&key, &[0u8; 32]).as_ref().to_vec()
}

#[test]
fn single_external_psk_matches_reference() {
    let ids = [PreSharedKeyID {
        key_id: JustPreSharedKeyID::External(ExternalPskId(vec![0u8; 32])),
        psk_nonce: PskNonce(vec![0u8; 32]),
    }];
    let store = [(vec![0u8; 32], vec![1u8; 32])];
    let out = secret_of(TEST_CIPHER_SUITE, &store, &ids);
    assert_eq!(out, expected_single_external_vector());
    assert_ne!(out, vec![0u8; 32]);
}

#[test]
fn swapping_two_psks_changes_the_secret() {
    let a = wrap_external_psk_id(TEST_CIPHER_SUITE, ExternalPskId(vec![0xaa; 32]));
    let b = wrap_external_psk_id(TEST_CIPHER_SUITE, ExternalPskId(vec![0xbb; 32]));
    let store = [(vec![0xaa; 32], vec![1u8; 32]), (vec![0xbb; 32], vec![2u8; 32])];
    let ab = secret_of(TEST_CIPHER_SUITE, &store, &[a.clone(), b.clone()]);
    let ba = secret_of(TEST_CIPHER_SUITE, &store, &[b, a]);
    assert_ne!(ab, ba);
}

#[test]
fn store_error_is_propagated() {
    let id = wrap_external_psk_id(TEST_CIPHER_SUITE, ExternalPskId(vec![7u8; 4]));
    let res = psk_secret(
        TEST_CIPHER_SUITE,
        |_| Err::<Option<Psk>, _>("store down"),
        |_| Ok::<_, Infallible>(None),
        &[id],
    );
    assert!(matches!(res, Err(PskSecretError::SecretStoreError("store down"))));
}

fn resumption_id(epoch: u64) -> PreSharedKeyID {
    PreSharedKeyID {
        key_id: JustPreSharedKeyID::Resumption(ResumptionPsk {
            usage: ResumptionPSKUsage::Application,
            psk_group_id: PskGroupId(vec![1, 2, 3]),
            psk_epoch: epoch,
        }),
        psk_nonce: PskNonce(vec![0u8; 32]),
    }
}

#[test]
fn missing_epoch_is_reported() {
    let res = psk_secret(
        TEST_CIPHER_SUITE,
        |_| Ok::<_, Infallible>(None),
        |_| Ok::<_, Infallible>(None),
        &[resumption_id(42)],
    );
    assert!(matches!(res, Err(PskSecretError::EpochNotFound(42))));
}

#[test]
fn epoch_repository_error_is_propagated() {
    let res = psk_secret(
        TEST_CIPHER_SUITE,
        |_| Ok::<_, Infallible>(None),
        |_| Err::<Option<Psk>, _>(17u32),
        &[resumption_id(3)],
    );
    assert!(matches!(res, Err(PskSecretError::EpochRepositoryError(17))));
}

#[test]
fn resumption_psk_is_looked_up_by_epoch() {
    let res = psk_secret(
        TEST_CIPHER_SUITE,
        |_| Ok::<_, Infallible>(None),
        |epoch| Ok::<_, Infallible>(if epoch == 5 { Some(Psk::from(vec![9u8; 32])) } else { None }),
        &[resumption_id(5)],
    );
    assert_eq!(res.unwrap().as_slice().len(), 32);
}

#[test]
fn too_many_psk_ids_are_rejected() {
    let id = PreSharedKeyID {
        key_id: JustPreSharedKeyID::External(ExternalPskId(vec![1])),
        psk_nonce: PskNonce(vec![2]),
    };
    let ids = vec![id; 65536];
    let res = psk_secret(
        TEST_CIPHER_SUITE,
        |_| Ok::<_, Infallible>(None),
        |_| Ok::<_, Infallible>(None),
        &ids,
    );
    assert!(matches!(res, Err(PskSecretError::TooManyPskIds(65536))));
}

#[test]
fn epoch_secret_is_extract_of_joiner_secret() {
    let psk = Psk::from(vec![3u8; 32]);
    let joiner = JoinerSecret::new(vec![4u8; 32]);
    let out = get_epoch_secret(TEST_CIPHER_SUITE, &psk, &joiner).unwrap();
    assert_eq!(out.len(), 32);
    let key = hmac::Key::new(hmac::HMAC_SHA256, &[3u8; 32]);
    assert_eq!(out, hmac::sign(&key, &[4u8; 32]).as_ref().to_vec());
}

#[test]
fn kdf_sizes_follow_the_suite() {
    assert_eq!(KdfId::new(CipherSuite::Curve25519Chacha), Some(KdfId::HkdfSha256));
    assert_eq!(KdfId::new(CipherSuite::P384Aes256).unwrap().extract_size(), 48);
    assert_eq!(KdfId::new(CipherSuite::Curve448Chacha).unwrap().extract_size(), 64);
    assert_eq!(AwsLcHkdf::new(CipherSuite::P521Aes256).unwrap().kdf_id(), 3);
}

fn from_hex(h: &str) -> Vec<u8> {
    (0..h.len()).step_by(2).map(|i| u8::from_str_radix(&h[i..i + 2], 16).unwrap()).collect()
}

#[test]
fn expand_gives_any_length_up_to_255_blocks() {
    let kdf = AwsLcHkdf::new(TEST_CIPHER_SUITE).unwrap();
    let prk = kdf.extract(&[1u8; 32], &[2u8; 32]).unwrap();
    let long = kdf.expand(&prk, b"info", 100).unwrap();
    assert_eq!(long.len(), 100);
    let block = kdf.expand(&prk, b"info", 32).unwrap();
    let short = kdf.expand(&prk, b"info", 16).unwrap();
    assert_eq!(&long[..32], block.as_slice());
    assert_eq!(&block[..16], short.as_slice());
    assert_ne!(block, prk);
    assert_eq!(kdf.expand(&prk, b"info", 255 * 32).unwrap().len(), 255 * 32);
    assert_eq!(kdf.expand(&prk, b"info", 255 * 32 + 1), Err(AwsLcCryptoError::Unspecified));
    assert_eq!(kdf.expand(&prk, b"info", 0), Ok(vec![]));
}

#[test]
fn expand_matches_aws_lc_hkdf_and_takes_long_keys() {
    let kdf = AwsLcHkdf::new(CipherSuite::P384Aes256).unwrap();
    let prk = kdf.extract(&[7u8; 48], &[8u8; 20]).unwrap();
    let ours = kdf.expand(&prk, b"context", 200).unwrap();
    // Expand(Extract(salt, ikm)) through aws-lc-rs's own HKDF
    let theirs_prk = Salt::new(HKDF_SHA384, &[7u8; 48]).extract(&[8u8; 20]);
    let info = [b"context".as_slice()];
    let mut theirs = vec![0u8; 48];
    theirs_prk.expand(&info, HKDF_SHA384).unwrap().fill(&mut theirs).unwrap();
    assert_eq!(&ours[..48], theirs.as_slice());
    assert_eq!(ours.len(), 200);
    let long_key = vec![5u8; 100];
    let a = kdf.expand(&long_key, b"x", 80).unwrap();
    let b = kdf.expand(&long_key, b"y", 80).unwrap();
    assert_eq!(a.len(), 80);
    assert_ne!(a, b);
}

#[test]
fn hkdf_matches_rfc5869_case_one() {
    let kdf = AwsLcHkdf::new(TEST_CIPHER_SUITE).unwrap();
    let prk = kdf.extract(&from_hex("000102030405060708090a0b0c"), &[0x0b; 22]).unwrap();
    assert_eq!(prk, from_hex("077709362c2e32df0ddc3f0dc47bba6390b6c73bb50f9c3122ec844ad7c2b3e5"));
    let okm = kdf.expand(&prk, &from_hex("f0f1f2f3f4f5f6f7f8f9"), 42).unwrap();
    assert_eq!(
        okm,
        from_hex("3cb25f25faacd57a90434f64d0362f2a2d2d0a90cf1a5a4c5db02d56ecc4c5bf34007208d5b887185865")
    );
}

#[test]
fn encodings_match_tls_codec() {
    let id = PreSharedKeyID {
        key_id: JustPreSharedKeyID::External(ExternalPskId(vec![5u8; 70])),
        psk_nonce: PskNonce(vec![6u8; 3]),
    };
    let mut expected = vec![1u8];
    expected.extend(tls_codec::VLBytes::new(vec![5u8; 70]).tls_serialize_detached().unwrap());
    expected.extend(tls_codec::VLBytes::new(vec![6u8; 3]).tls_serialize_detached().unwrap());
    assert_eq!(id.encode().unwrap(), expected);

    let label = PSKLabel { id: resumption_id(0x0102030405060708), index: 2, count: 3 };
    let mut expected = vec![2u8, 1u8, 3u8, 1, 2, 3, 1, 2, 3, 4, 5, 6, 7, 8, 32];
    expected.extend_from_slice(&[0u8; 32]);
    expected.extend_from_slice(&[0, 2, 0, 3]);
    assert_eq!(label.encode().unwrap(), expected);
}

#[test]
fn resumption_search_prefers_current_epoch() {
    let current = Psk::from(vec![1u8; 4]);
    let prior = vec![(3u64, Psk::from(vec![3u8; 4])), (4u64, Psk::from(vec![4u8; 4]))];
    let search = ResumptionPskSearch { current_epoch: 5, current_secret: &current, prior_epochs: &prior };
    assert_eq!(search.find(5).unwrap().as_slice(), &[1u8; 4]);
    assert_eq!(search.find(4).unwrap().as_slice(), &[4u8; 4]);
    assert!(search.find(9).is_none());
}

#[test]
fn psk_id_and_label_decode_what_they_encode() {
    let ext = PreSharedKeyID {
        key_id: JustPreSharedKeyID::External(ExternalPskId(vec![9u8; 100])),
        psk_nonce: PskNonce(vec![1u8; 32]),
    };
    let bytes = ext.encode().unwrap();
    assert_eq!(PreSharedKeyID::decode(&bytes), Ok((ext.clone(), bytes.len())));

    let res = resumption_id(u64::MAX - 5);
    let bytes = res.encode().unwrap();
    assert_eq!(PreSharedKeyID::decode(&bytes), Ok((res.clone(), bytes.len())));

    let label = PSKLabel { id: res, index: 7, count: 300 };
    let mut bytes = label.encode().unwrap();
    let n = bytes.len();
    bytes.extend_from_slice(&[0xff, 0xee]);
    assert_eq!(PSKLabel::decode(&bytes), Ok((label, n)));
}

#[test]
fn truncated_or_unknown_encodings_are_rejected() {
    let id = resumption_id(1);
    let bytes = id.encode().unwrap();
    assert!(PreSharedKeyID::decode(&bytes[..bytes.len() - 1]).is_err());
    let mut bad_usage = bytes.clone();
    bad_usage[1] = 4;
    assert!(PreSharedKeyID::decode(&bad_usage).is_err());
    let mut bad_tag = bytes;
    bad_tag[0] = 3;
    assert!(PreSharedKeyID::decode(&bad_tag).is_err());
    assert!(PreSharedKeyID::decode(&[]).is_err());
}

#[test]
fn pass_through_validator_accepts_everything() {
    assert!(PassThroughPskIdValidator.validate(&ExternalPskId(vec![])).is_ok());
}
