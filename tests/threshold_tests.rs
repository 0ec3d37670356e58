use tess::backend::FieldElement;
use tess::config::{BackendConfig, BackendId, CurveId, ThresholdParameters};
use tess::errors::{BackendError, Error};
use tess::protocol::{
    aggregate_decrypt, encrypt, keygen, partial_decrypt, KeyMaterial, PartialDecryption,
};
use tess::transparent::{ExpPoint, TransparentBackend, Zp};

type B = TransparentBackend;

fn z(v: u64) -> Zp {
    Zp { v: v % 17 }
}

fn params(parties: usize, threshold: usize, chunk_size: usize) -> ThresholdParameters {
    ThresholdParameters {
        parties,
        threshold,
        chunk_size,
        backend: BackendConfig::new(BackendId::Transparent, CurveId::Z17),
        kzg_tau: None,
    }
}

fn setup(p: &ThresholdParameters) -> KeyMaterial<B> {
    let secrets: Vec<Zp> = (0..p.parties).map(|i| z(5 * i as u64 + 1)).collect();
    keygen::<B>(p, &z(10), &secrets).unwrap()
}

fn shares_for(km: &KeyMaterial<B>, ct: &tess::protocol::Ciphertext<B>, ids: &[usize]) -> (Vec<PartialDecryption<B>>, Vec<bool>) {
    let mut selector = vec![false; km.secret_keys.len()];
    let mut partials = Vec::new();
    for &id in ids {
        selector[id] = true;
        partials.push(partial_decrypt(&km.secret_keys[id], ct).unwrap());
    }
    (partials, selector)
}

#[test]
fn round_trip_sixteen_parties_threshold_three() {
    let p = params(16, 3, 1024);
    let km = setup(&p);
    let subsets: [[usize; 4]; 4] = [[0, 1, 2, 3], [15, 7, 3, 11], [4, 9, 10, 14], [12, 13, 5, 6]];
    for len in [0usize, 1, 31, 32, 33, 1024] {
        let payload: Vec<u8> = (0..len).map(|i| (i * 31 % 256) as u8).collect();
        let ct = encrypt(&km.aggregate_key, &p, &z(4), &payload).unwrap();
        assert_eq!(ct.payload.len(), len);
        for ids in subsets.iter() {
            let (partials, selector) = shares_for(&km, &ct, ids);
            let out = aggregate_decrypt(&ct, &partials, &selector, &km.aggregate_key).unwrap();
            assert_eq!(out.plaintext, Some(payload.clone()), "len={} ids={:?}", len, ids);
            assert_eq!(out.shared_secret, ct.shared_secret);
            assert!(out.opening_proof.is_none());
        }
    }
}

#[test]
fn exactly_threshold_shares_fail() {
    let p = params(16, 3, 32);
    let km = setup(&p);
    let payload = vec![7u8; 32];
    let ct = encrypt(&km.aggregate_key, &p, &z(9), &payload).unwrap();
    let (partials, selector) = shares_for(&km, &ct, &[2, 5, 8]);
    assert!(matches!(
        aggregate_decrypt(&ct, &partials, &selector, &km.aggregate_key),
        Err(Error::Protocol(_))
    ));
}

#[test]
fn forged_share_is_detected() {
    let p = params(16, 3, 32);
    let km = setup(&p);
    let ct = encrypt(&km.aggregate_key, &p, &z(9), &[1u8; 32]).unwrap();
    let (mut partials, selector) = shares_for(&km, &ct, &[1, 2, 3, 4]);
    partials[2].response = ExpPoint { log: partials[2].response.log.add(&z(1)) };
    assert!(matches!(
        aggregate_decrypt(&ct, &partials, &selector, &km.aggregate_key),
        Err(Error::Protocol(_))
    ));
}

#[test]
fn tampered_ciphertext_is_detected() {
    let p = params(16, 3, 32);
    let km = setup(&p);
    let ct = encrypt(&km.aggregate_key, &p, &z(9), &[1u8; 32]).unwrap();
    let (partials, selector) = shares_for(&km, &ct, &[1, 2, 3, 4]);
    let mut bad = ct.clone();
    bad.threshold = 2;
    assert!(aggregate_decrypt(&bad, &partials, &selector, &km.aggregate_key).is_err());
}

#[test]
fn fresh_randomness_changes_ciphertext_not_plaintext() {
    let p = params(16, 3, 32);
    let km = setup(&p);
    let payload: Vec<u8> = (0..32).collect();
    let ct1 = encrypt(&km.aggregate_key, &p, &z(3), &payload).unwrap();
    let ct2 = encrypt(&km.aggregate_key, &p, &z(11), &payload).unwrap();
    assert_ne!(ct1.gamma_g2, ct2.gamma_g2);
    assert_ne!(ct1.payload, ct2.payload);
    let (p1, s1) = shares_for(&km, &ct1, &[0, 4, 8, 12]);
    let (p2, s2) = shares_for(&km, &ct2, &[1, 3, 9, 15]);
    let out1 = aggregate_decrypt(&ct1, &p1, &s1, &km.aggregate_key).unwrap();
    let out2 = aggregate_decrypt(&ct2, &p2, &s2, &km.aggregate_key).unwrap();
    assert_eq!(out1.plaintext, Some(payload.clone()));
    assert_eq!(out2.plaintext, Some(payload));
}

#[test]
fn end_to_end_zero_payload() {
    // the transparent field has radix-2 domains up to 16 points
    let p = params(16, 3, 32);
    let km = setup(&p);
    let message = vec![0u8; p.chunk_size];
    let ct = encrypt(&km.aggregate_key, &p, &z(6), &message).unwrap();
    let chosen = [13usize, 2, 7, 10];
    let (partials, selector) = shares_for(&km, &ct, &chosen);
    let out = aggregate_decrypt(&ct, &partials, &selector, &km.aggregate_key).unwrap();
    assert_eq!(out.plaintext, Some(vec![0u8; 32]));
}

#[test]
fn encrypt_rejections() {
    let p = params(16, 3, 32);
    let km = setup(&p);
    assert!(matches!(
        encrypt(&km.aggregate_key, &p, &z(2), &[0u8; 33]),
        Err(Error::Protocol(_))
    ));
    assert!(matches!(
        encrypt(&km.aggregate_key, &params(15, 3, 32), &z(2), &[0u8; 3]),
        Err(Error::InvalidConfig(_))
    ));
    // a threshold beyond the degree of the key's parameters
    let small = params(2, 1, 32);
    let km2 = setup(&small);
    assert!(matches!(
        encrypt(&km2.aggregate_key, &params(4, 4, 32), &z(2), &[0u8; 3]),
        Err(Error::Backend(BackendError::Math(_)))
    ));
}
