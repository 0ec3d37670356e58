use tess::backend::{CurvePoint, TargetGroup};
use tess::protocol::{
    check_partials, decrypt_payload, derive_keystream, encrypt_payload, partial_decrypt, xor_with_keystream,
    Ciphertext, PartialDecryption, SecretKey,
};
use tess::transparent::{ExpPoint, ExpTarget, TransparentBackend, Zp};

type B = TransparentBackend;

fn z(v: u64) -> Zp {
    Zp { v: v % 17 }
}

fn reference_keystream(secret: &ExpTarget, len: usize) -> Vec<u8> {
    let mut hasher = blake3::Hasher::new();
    hasher.update(b"TESS::threshold::payload");
    hasher.update(&secret.to_repr());
    hasher.update(&(len as u64).to_le_bytes());
    let mut reader = hasher.finalize_xof();
    let mut out = vec![0u8; len];
    reader.fill(&mut out);
    out
}

fn ciphertext(gamma: u64, payload: Vec<u8>) -> Ciphertext<B> {
    Ciphertext {
        gamma_g2: ExpPoint { log: z(gamma) },
        proof_g1: Vec::new(),
        proof_g2: Vec::new(),
        shared_secret: ExpTarget { log: z(0) },
        threshold: 3,
        payload,
    }
}

#[test]
fn target_encoding_is_little_endian() {
    assert_eq!(ExpTarget { log: z(5) }.to_repr(), vec![5, 0, 0, 0, 0, 0, 0, 0]);
}

#[test]
fn payload_keystream_matches_hashing() {
    let secret = ExpTarget { log: z(9) };
    for len in [1usize, 32, 33] {
        assert_eq!(derive_keystream::<B>(&secret, len), reference_keystream(&secret, len));
    }
    assert!(derive_keystream::<B>(&secret, 0).is_empty());
}

#[test]
fn xor_with_keystream_bytes() {
    assert_eq!(xor_with_keystream(&[1, 2, 3], &[3, 3, 3, 3]), vec![2, 1, 0]);
}

#[test]
fn payload_round_trip_lengths() {
    let secret = ExpTarget { log: z(12) };
    for len in [0usize, 1, 31, 32, 33, 1024] {
        let payload: Vec<u8> = (0..len).map(|i| (i % 251) as u8).collect();
        let ct = encrypt_payload::<B>(&secret, &payload);
        assert_eq!(ct.len(), len);
        if len > 0 {
            assert_ne!(ct, payload);
        }
        assert_eq!(decrypt_payload::<B>(&secret, &ct), payload);
    }
}

#[test]
fn payload_wrong_secret_does_not_decrypt() {
    let payload = vec![0u8; 32];
    let ct = encrypt_payload::<B>(&ExpTarget { log: z(1) }, &payload);
    assert_ne!(decrypt_payload::<B>(&ExpTarget { log: z(2) }, &ct), payload);
}

#[test]
fn partial_decrypt_scales_gamma() {
    let sk = SecretKey::<B> { participant_id: 7, scalar: z(5) };
    let ct = ciphertext(3, vec![1, 2, 3]);
    let pd = partial_decrypt(&sk, &ct).unwrap();
    assert_eq!(pd.participant_id, 7);
    assert_eq!(pd.response, ExpPoint { log: z(15) });
    assert_eq!(pd.response, ct.gamma_g2.mul_scalar(&sk.scalar));
    let copy: PartialDecryption<B> = pd.clone();
    assert_eq!(copy.participant_id, 7);
    assert_eq!(copy.response, pd.response);
}

fn shares(ids: &[usize]) -> Vec<PartialDecryption<B>> {
    ids.iter()
        .map(|&id| PartialDecryption { participant_id: id, response: ExpPoint { log: z(id as u64) } })
        .collect()
}

fn selector(parties: usize, ids: &[usize]) -> Vec<bool> {
    let mut s = vec![false; parties];
    for &id in ids {
        s[id] = true;
    }
    s
}

#[test]
fn check_partials_accepts_threshold_plus_one() {
    let ids = [1usize, 4, 9, 15];
    assert!(check_partials(&shares(&ids), &selector(16, &ids), 16, 3).is_ok());
    let more = [0usize, 2, 3, 5, 8];
    assert!(check_partials(&shares(&more), &selector(16, &more), 16, 3).is_ok());
}

#[test]
fn check_partials_rejects_threshold_many() {
    let ids = [1usize, 4, 9];
    assert!(check_partials(&shares(&ids), &selector(16, &ids), 16, 3).is_err());
}

#[test]
fn check_partials_rejects_inconsistent_sets() {
    let ids = [1usize, 4, 9, 15];
    // selector of the wrong length
    assert!(check_partials(&shares(&ids), &selector(8 + 8 + 1, &ids), 16, 3).is_err());
    // a share from an unselected participant
    assert!(check_partials(&shares(&ids), &selector(16, &[1, 4, 9, 14]), 16, 3).is_err());
    // a duplicate share
    assert!(check_partials(&shares(&[1, 4, 4, 9]), &selector(16, &[1, 4, 9]), 16, 2).is_err());
    // a selected participant without a share
    assert!(check_partials(&shares(&ids), &selector(16, &[1, 4, 9, 15, 3]), 16, 3).is_err());
    // an id outside the party range
    assert!(check_partials(&shares(&[1, 4, 9, 16]), &selector(16, &[1, 4, 9]), 16, 2).is_err());
}
