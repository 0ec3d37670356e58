use vstd::prelude::*;

use vstd::string::StringSliceAdditionalSpecFns;

use crate::errors::Error;

verus! {

/// First `len` bytes of the BLAKE3 extendable output for `input`.
pub uninterp spec fn blake3_xof(input: Seq<u8>, len: nat) -> Seq<u8>;

/// Relies on `blake3::Hasher` (`new`, `update`, `finalize_xof`) and
/// `blake3::OutputReader::fill`: the result is the first `len` bytes of the
/// extendable output of the hash of `input`, a function of `input` and `len`.
#[verifier::external_body]
fn blake3_xof_bytes(input: &[u8], len: usize) -> (r: Vec<u8>)
    ensures
        r@ == blake3_xof(input@, len as nat),
        r@.len() == len,
{
    let mut hasher = blake3::Hasher::new();
    hasher.update(input);
    let mut reader = hasher.finalize_xof();
    let mut out = vec![0u8; len];
    reader.fill(&mut out);
    out
}

/// Little-endian encoding of the `k` low bytes of `n`.
pub open spec fn le_bytes(n: nat, k: nat) -> Seq<u8>
    decreases k,
{
    if k == 0 {
        Seq::empty()
    } else {
        seq![(n % 256) as u8] + le_bytes(n / 256, (k - 1) as nat)
    }
}

/// The eight little-endian bytes of `n`.
pub fn u64_le_bytes(n: u64) -> (r: Vec<u8>)
    ensures
        r@ == le_bytes(n as nat, 8),
{
    let mut out: Vec<u8> = Vec::new();
    let mut v: u64 = n;
    let mut i: usize = 0;
    while i < 8
        invariant
            i <= 8,
            out@ + le_bytes(v as nat, (8 - i) as nat) == le_bytes(n as nat, 8),
        decreases 8 - i,
    {
        let ghost before = out@;
        out.push((v % 256) as u8);
        proof {
            let rest = le_bytes((v / 256) as nat, (8 - i - 1) as nat);
            assert(le_bytes(v as nat, (8 - i) as nat) == seq![(v % 256) as u8] + rest);
            assert(out@ + rest =~= before + (seq![(v % 256) as u8] + rest));
        }
        v = v / 256;
        i = i + 1;
    }
    proof {
        assert(le_bytes(v as nat, 0) == Seq::<u8>::empty());
        assert(out@ + Seq::<u8>::empty() =~= out@);
    }
    out
}

/// What the key-derivation hash absorbs: the domain tag, the secret and the
/// little-endian 64-bit length.
pub open spec fn kdf_input(domain: Seq<u8>, secret: Seq<u8>, len: nat) -> Seq<u8> {
    domain + secret + le_bytes(len, 8)
}

/// Keystream of `len` bytes for `secret` under `domain`; empty for `len == 0`.
pub open spec fn keystream_of(domain: Seq<u8>, secret: Seq<u8>, len: nat) -> Seq<u8> {
    if len == 0 {
        Seq::empty()
    } else {
        blake3_xof(kdf_input(domain, secret, len), len)
    }
}

/// Byte-wise XOR over the common length of `a` and `b`.
pub open spec fn xor_seq(a: Seq<u8>, b: Seq<u8>) -> Seq<u8> {
    Seq::new(
        if a.len() <= b.len() {
            a.len()
        } else {
            b.len()
        },
        |i: int| a[i] ^ b[i],
    )
}

/// XOR with a keystream at least as long as the data undoes itself, so
/// decrypting what was encrypted under the same secret (and therefore the same
/// keystream) gives the plaintext back.
pub proof fn lemma_xor_round_trip(ks: Seq<u8>, data: Seq<u8>)
    requires
        ks.len() >= data.len(),
    ensures
        xor_seq(ks, xor_seq(ks, data)) == data,
{
    let once = xor_seq(ks, data);
    let twice = xor_seq(ks, once);
    assert forall|i: int| 0 <= i < data.len() implies #[trigger] twice[i] == data[i] by {
        let k = ks[i];
        let d = data[i];
        assert(k ^ (k ^ d) == d) by (bit_vector);
    }
    assert(twice =~= data);
}

/// Derives `len` keystream bytes from `secret` under `domain`.
pub fn derive_keystream_bytes(domain: &[u8], secret: &[u8], len: usize) -> (r: Vec<u8>)
    ensures
        r@ == keystream_of(domain@, secret@, len as nat),
        r@.len() == len,
{
    if len == 0 {
        return Vec::new();
    }
    let mut input: Vec<u8> = Vec::new();
    append_bytes(&mut input, domain);
    append_bytes(&mut input, secret);
    let tail = u64_le_bytes(len as u64);
    append_bytes(&mut input, tail.as_slice());
    proof {
        assert(input@ =~= kdf_input(domain@, secret@, len as nat));
    }
    blake3_xof_bytes(input.as_slice(), len)
}

/// Appends `src` to `dst`.
pub fn append_bytes(dst: &mut Vec<u8>, src: &[u8])
    ensures
        final(dst)@ == old(dst)@ + src@,
{
    let mut i: usize = 0;
    while i < src.len()
        invariant
            i <= src@.len(),
            dst@ == old(dst)@ + src@.subrange(0, i as int),
        decreases src@.len() - i,
    {
        dst.push(src[i]);
        proof {
            assert(src@.subrange(0, i + 1) =~= src@.subrange(0, i as int).push(src@[i as int]));
        }
        i = i + 1;
    }
    proof {
        assert(src@.subrange(0, src@.len() as int) =~= src@);
    }
}

/// XORs two byte slices together, over their common length.
pub fn xor_bytes(a: &[u8], b: &[u8]) -> (r: Vec<u8>)
    ensures
        r@ == xor_seq(a@, b@),
{
    let n = if a.len() <= b.len() {
        a.len()
    } else {
        b.len()
    };
    let mut out: Vec<u8> = Vec::new();
    let mut i: usize = 0;
    while i < n
        invariant
            n <= a@.len(),
            n <= b@.len(),
            n == xor_seq(a@, b@).len(),
            i <= n,
            out@ =~= xor_seq(a@, b@).subrange(0, i as int),
        decreases n - i,
    {
        out.push(a[i] ^ b[i]);
        i = i + 1;
    }
    out
}

/// Symmetric encryption keyed by a byte secret.
pub trait SymmetricEncryption {
    /// The keystream used for `secret` and a message of `len` bytes.
    spec fn keystream(&self, secret: Seq<u8>, len: nat) -> Seq<u8>;

    /// Encrypts `plaintext` by XOR with the keystream.
    fn encrypt(&self, secret: &[u8], plaintext: &[u8]) -> (r: Result<Vec<u8>, Error>)
        ensures
            r is Ok,
            r->Ok_0@ == xor_seq(self.keystream(secret@, plaintext@.len()), plaintext@),
            r->Ok_0@.len() == plaintext@.len(),
            self.keystream(secret@, plaintext@.len()).len() == plaintext@.len(),
    ;

    /// Decrypts `ciphertext` by XOR with the keystream.
    fn decrypt(&self, secret: &[u8], ciphertext: &[u8]) -> (r: Result<Vec<u8>, Error>)
        ensures
            r is Ok,
            r->Ok_0@ == xor_seq(self.keystream(secret@, ciphertext@.len()), ciphertext@),
            r->Ok_0@.len() == ciphertext@.len(),
            self.keystream(secret@, ciphertext@.len()).len() == ciphertext@.len(),
    ;
}

/// BLAKE3-based symmetric encryption: the keystream is drawn from BLAKE3's
/// extendable output over a domain tag, the secret and the length.
#[derive(Debug, Clone, Copy)]
pub struct Blake3XorEncryption {
    /// Domain separation tag.
    pub domain: &'static [u8],
}

/// The domain tag of the default instance.
pub const DEFAULT_DOMAIN: &'static str = "tess::threshold::payload";

impl Blake3XorEncryption {
    /// Creates an instance with the given domain tag.
    pub fn new(domain: &'static [u8]) -> (r: Self)
        ensures
            r.domain@ == domain@,
    {
        Self { domain }
    }

    /// Derives `len` bytes of keystream for `secret`.
    pub fn derive_keystream(&self, secret: &[u8], len: usize) -> (r: Vec<u8>)
        ensures
            r@ == keystream_of(self.domain@, secret@, len as nat),
            r@.len() == len,
    {
        derive_keystream_bytes(self.domain, secret, len)
    }
}

impl Default for Blake3XorEncryption {
    fn default() -> (r: Self)
        ensures
            r.domain@ == DEFAULT_DOMAIN.spec_bytes(),
    {
        Self::new(DEFAULT_DOMAIN.as_bytes())
    }
}

impl SymmetricEncryption for Blake3XorEncryption {
    open spec fn keystream(&self, secret: Seq<u8>, len: nat) -> Seq<u8> {
        keystream_of(self.domain@, secret, len)
    }

    fn encrypt(&self, secret: &[u8], plaintext: &[u8]) -> (r: Result<Vec<u8>, Error>) {
        if plaintext.len() == 0 {
            proof {
                assert(xor_seq(Seq::empty(), plaintext@) =~= Seq::<u8>::empty());
            }
            return Ok(Vec::new());
        }
        let keystream = self.derive_keystream(secret, plaintext.len());
        Ok(xor_bytes(keystream.as_slice(), plaintext))
    }

    fn decrypt(&self, secret: &[u8], ciphertext: &[u8]) -> (r: Result<Vec<u8>, Error>) {
        if ciphertext.len() == 0 {
            proof {
                assert(xor_seq(Seq::empty(), ciphertext@) =~= Seq::<u8>::empty());
            }
            return Ok(Vec::new());
        }
        let keystream = self.derive_keystream(secret, ciphertext.len());
        Ok(xor_bytes(keystream.as_slice(), ciphertext))
    }
}

} // verus!
