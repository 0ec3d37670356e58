use tess::sym_enc::{xor_bytes, Blake3XorEncryption, SymmetricEncryption};

fn reference_keystream(domain: &[u8], secret: &[u8], len: usize) -> Vec<u8> {
    let mut hasher = blake3::Hasher::new();
    hasher.update(domain);
    hasher.update(secret);
    hasher.update(&(len as u64).to_le_bytes());
    let mut reader = hasher.finalize_xof();
    let mut out = vec![0u8; len];
    reader.fill(&mut out);
    out
}

#[test]
fn xor_bytes_uses_common_length() {
    assert_eq!(xor_bytes(&[0xff, 0x0f, 0x01], &[0x0f, 0x0f]), vec![0xf0, 0x00]);
    assert_eq!(xor_bytes(&[], &[1, 2]), Vec::<u8>::new());
}

#[test]
fn empty_plaintext_gives_empty_ciphertext() {
    let e = Blake3XorEncryption::default();
    assert_eq!(e.encrypt(b"secret", b"").unwrap(), Vec::<u8>::new());
    assert_eq!(e.decrypt(b"secret", b"").unwrap(), Vec::<u8>::new());
}

#[test]
fn keystream_matches_incremental_hashing() {
    let e = Blake3XorEncryption::new(b"domain-tag");
    for len in [1usize, 31, 32, 33, 100] {
        assert_eq!(
            e.derive_keystream(b"shared", len),
            reference_keystream(b"domain-tag", b"shared", len)
        );
    }
    assert_eq!(e.derive_keystream(b"shared", 0), Vec::<u8>::new());
}

#[test]
fn encrypt_is_xor_with_keystream() {
    let e = Blake3XorEncryption::default();
    let plaintext = b"attack at dawn".to_vec();
    let ct = e.encrypt(b"k", &plaintext).unwrap();
    assert_ne!(ct, plaintext);
    let ks = reference_keystream(b"tess::threshold::payload", b"k", plaintext.len());
    let expected: Vec<u8> = plaintext.iter().zip(ks.iter()).map(|(a, b)| a ^ b).collect();
    assert_eq!(ct, expected);
}

#[test]
fn round_trip_various_lengths() {
    let e = Blake3XorEncryption::default();
    for len in [0usize, 1, 31, 32, 33, 1024] {
        let plaintext: Vec<u8> = (0..len).map(|i| (i * 7 + 3) as u8).collect();
        let ct = e.encrypt(b"secret", &plaintext).unwrap();
        assert_eq!(ct.len(), len);
        assert_eq!(e.decrypt(b"secret", &ct).unwrap(), plaintext);
    }
}

#[test]
fn different_secrets_give_different_ciphertexts() {
    let e = Blake3XorEncryption::default();
    let p = vec![0u8; 32];
    assert_ne!(e.encrypt(b"a", &p).unwrap(), e.encrypt(b"b", &p).unwrap());
}
