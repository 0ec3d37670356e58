use vstd::prelude::*;
use vstd::string::StringSliceAdditionalSpecFns;

use crate::backend::{CurvePoint, FieldElement, PairingBackend, TargetGroup};
use crate::config::{ThresholdParameters, validation_outcome};
use crate::errors::{BackendError, Error};
use crate::kzg::{KZG, SRS, commitment_log, copy_vec, order};
use crate::lagrange::{domain_ok, is_lagrange_basis, lagrange_polys};
use crate::poly::{
    DensePolynomial, drop_constant, poly_mul, poly_sub, reduce, shift_up, vals, vanishing_quotient,
};
use crate::sym_enc::{derive_keystream_bytes, keystream_of, xor_bytes, xor_seq};

verus! {

/// Secret key owned by a participant.
pub struct SecretKey<B: PairingBackend> {
    pub participant_id: usize,
    pub scalar: B::Scalar,
}

/// Public metadata used to verify shares and construct the aggregate key.
pub struct PublicKey<B: PairingBackend> {
    pub participant_id: usize,
    pub bls_key: B::G1,
    pub lagrange_li: B::G1,
    pub lagrange_li_minus0: B::G1,
    pub lagrange_li_x: B::G1,
    /// One cross-term commitment per participant, indexed by participant id.
    pub lagrange_li_lj_z: Vec<B::G1>,
}

/// Aggregated key required for encryption and verification of responses.
pub struct AggregateKey<B: PairingBackend> {
    pub public_keys: Vec<PublicKey<B>>,
    pub ask: B::G1,
    pub z_g2: B::G2,
    pub lagrange_row_sums: Vec<B::G1>,
    pub precomputed_pairing: B::Target,
    pub commitment_params: SRS<B>,
}

/// Ciphertext produced by the silent threshold encryption scheme.
pub struct Ciphertext<B: PairingBackend> {
    pub gamma_g2: B::G2,
    pub proof_g1: Vec<B::G1>,
    pub proof_g2: Vec<B::G2>,
    pub shared_secret: B::Target,
    pub threshold: usize,
    pub payload: Vec<u8>,
}

impl<B: PairingBackend> Clone for Ciphertext<B> {
    fn clone(&self) -> (r: Self)
        ensures
            r.gamma_g2 == self.gamma_g2,
            r.proof_g1@ == self.proof_g1@,
            r.proof_g2@ == self.proof_g2@,
            r.shared_secret == self.shared_secret,
            r.threshold == self.threshold,
            r.payload@ == self.payload@,
    {
        Ciphertext {
            gamma_g2: self.gamma_g2,
            proof_g1: copy_vec(&self.proof_g1),
            proof_g2: copy_vec(&self.proof_g2),
            shared_secret: self.shared_secret,
            threshold: self.threshold,
            payload: copy_vec(&self.payload),
        }
    }
}

/// Output of a participant's partial decryption.
pub struct PartialDecryption<B: PairingBackend> {
    pub participant_id: usize,
    pub response: B::G2,
}

impl<B: PairingBackend> Clone for PartialDecryption<B> {
    fn clone(&self) -> (r: Self)
        ensures
            r == *self,
    {
        PartialDecryption { participant_id: self.participant_id, response: self.response }
    }
}

/// Bundle returned by key generation.
pub struct KeyMaterial<B: PairingBackend> {
    pub secret_keys: Vec<SecretKey<B>>,
    pub public_keys: Vec<PublicKey<B>>,
    pub aggregate_key: AggregateKey<B>,
    pub kzg_params: SRS<B>,
}

/// Result produced after aggregation of enough partial decryptions.
pub struct DecryptionResult<B: PairingBackend> {
    pub shared_secret: B::Target,
    pub opening_proof: Option<Vec<u8>>,
    pub plaintext: Option<Vec<u8>>,
}

/// Discrete log of a hint: the commitment to `p` scaled by the secret `sk`.
pub open spec fn hint_log(p: Seq<int>, tau: int, sk: int, m: int) -> int {
    (commitment_log(p, tau, m) * sk) % m
}

/// The polynomial behind cross term `j` of participant `i`:
/// `L_i * L_j / Z` for `j != i` and `(L_i^2 - L_i) / Z` for `j == i`, where
/// `Z = X^n - 1` vanishes on the domain.
pub open spec fn cross_poly(bases: Seq<Seq<int>>, i: int, j: int, m: int) -> Seq<int> {
    let n = bases.len();
    let li = bases[i];
    if i == j {
        vanishing_quotient(reduce(poly_sub(reduce(poly_mul(li, li), m), li), m), n)
    } else {
        vanishing_quotient(reduce(poly_mul(li, bases[j]), m), n)
    }
}

/// `pk` is the public key of participant `i` with secret `sk`, for the
/// Lagrange basis `bases` of the domain and the secret point `tau`.
pub open spec fn public_key_ok<B: PairingBackend>(
    pk: PublicKey<B>,
    i: int,
    sk: int,
    bases: Seq<Seq<int>>,
    tau: int,
) -> bool {
    let m = order::<B>();
    let li = bases[i];
    &&& pk.participant_id == i
    &&& pk.bls_key.dlog() == sk % m
    &&& pk.lagrange_li.dlog() == hint_log(li, tau, sk, m)
    &&& pk.lagrange_li_minus0.dlog() == hint_log(drop_constant(li), tau, sk, m)
    &&& pk.lagrange_li_x.dlog() == hint_log(shift_up(li), tau, sk, m)
    &&& pk.lagrange_li_lj_z@.len() == bases.len()
    &&& forall|j: int|
        0 <= j < bases.len() ==> #[trigger] pk.lagrange_li_lj_z@[j].dlog() == hint_log(
            cross_poly(bases, i, j, m),
            tau,
            sk,
            m,
        )
}

/// Sum of discrete logs of `s`, over the integers.
pub open spec fn dlog_sum<S: FieldElement, G: CurvePoint<S>>(s: Seq<G>) -> int
    decreases s.len(),
{
    if s.len() == 0 {
        0
    } else {
        dlog_sum::<S, G>(s.drop_last()) + s.last().dlog()
    }
}

/// The keys' `lagrange_li` commitments.
pub open spec fn li_column<B: PairingBackend>(pks: Seq<PublicKey<B>>) -> Seq<B::G1> {
    pks.map_values(|pk: PublicKey<B>| pk.lagrange_li)
}

/// Cross term `i` of every key.
pub open spec fn cross_column<B: PairingBackend>(pks: Seq<PublicKey<B>>, i: int) -> Seq<B::G1> {
    pks.map_values(|pk: PublicKey<B>| pk.lagrange_li_lj_z@[i])
}

/// Two public keys hold the same elements.
pub open spec fn same_key<B: PairingBackend>(a: PublicKey<B>, b: PublicKey<B>) -> bool {
    &&& a.participant_id == b.participant_id
    &&& a.bls_key == b.bls_key
    &&& a.lagrange_li == b.lagrange_li
    &&& a.lagrange_li_minus0 == b.lagrange_li_minus0
    &&& a.lagrange_li_x == b.lagrange_li_x
    &&& a.lagrange_li_lj_z@ == b.lagrange_li_lj_z@
}

/// The key set is well shaped for `n` parties: key `i` belongs to
/// participant `i` and carries one cross term per participant.
pub open spec fn key_set_shaped<B: PairingBackend>(pks: Seq<PublicKey<B>>, n: nat) -> bool {
    &&& pks.len() == n
    &&& forall|i: int|
        0 <= i < n ==> (#[trigger] pks[i]).participant_id == i && pks[i].lagrange_li_lj_z@.len() == n
}

/// `agg` is the aggregate of `pks` under parameters `srs`: the keys
/// themselves, `ask = sum_i lagrange_li`, the vanishing commitment, the sums
/// of cross term `i` over all keys, and `e(ask, h)`.
pub open spec fn aggregate_of<B: PairingBackend>(agg: AggregateKey<B>, pks: Seq<PublicKey<B>>, srs: SRS<B>) -> bool {
    let m = order::<B>();
    let n = pks.len();
    &&& agg.public_keys@.len() == n
    &&& forall|i: int| 0 <= i < n ==> same_key(#[trigger] agg.public_keys@[i], pks[i])
    &&& agg.ask.dlog() == dlog_sum::<B::Scalar, B::G1>(li_column(pks)) % m
    &&& agg.z_g2 == srs.vanishing_poly_g2
    &&& agg.lagrange_row_sums@.len() == n
    &&& forall|i: int|
        0 <= i < n ==> #[trigger] agg.lagrange_row_sums@[i].dlog() == dlog_sum::<B::Scalar, B::G1>(
            cross_column(pks, i),
        ) % m
    &&& agg.precomputed_pairing.tlog() == agg.ask.dlog()
    &&& agg.commitment_params.same_as(&srs)
}

/// A copy of a public key.
pub fn copy_public_key<B: PairingBackend>(pk: &PublicKey<B>) -> (r: PublicKey<B>)
    ensures
        same_key(r, *pk),
{
    PublicKey {
        participant_id: pk.participant_id,
        bls_key: pk.bls_key,
        lagrange_li: pk.lagrange_li,
        lagrange_li_minus0: pk.lagrange_li_minus0,
        lagrange_li_x: pk.lagrange_li_x,
        lagrange_li_lj_z: copy_vec(&pk.lagrange_li_lj_z),
    }
}

impl<B: PairingBackend> Clone for PublicKey<B> {
    fn clone(&self) -> (r: Self)
        ensures
            same_key(r, *self),
    {
        copy_public_key(self)
    }
}

/// Recomputes the aggregate key from an ordered list of public keys; a pure
/// function of the keys and the parameters.
pub fn aggregate_public_key<B: PairingBackend>(
    params: &ThresholdParameters,
    public_keys: &[PublicKey<B>],
    srs: &SRS<B>,
) -> (r: Result<AggregateKey<B>, Error>)
    ensures
        validation_outcome(*params) is Err ==> r == Err::<AggregateKey<B>, Error>(validation_outcome(*params)->Err_0),
        r is Ok <==> (validation_outcome(*params) is Ok && key_set_shaped(public_keys@, params.parties as nat)),
        validation_outcome(*params) is Ok && r is Err ==> r->Err_0 is Protocol,
        r is Ok ==> aggregate_of(r->Ok_0, public_keys@, *srs),
{
    match params.validate() {
        Err(e) => {
            return Err(e);
        },
        Ok(()) => {},
    }
    let n = params.parties;
    if public_keys.len() != n {
        return Err(Error::Protocol("one public key per party is needed"));
    }
    let ghost m = order::<B>();
    let ghost pks = public_keys@;
    proof {
        <B::Scalar as FieldElement>::lemma_modulus();
    }
    let mut keys: Vec<PublicKey<B>> = Vec::new();
    let mut ask = <B::G1 as CurvePoint<B::Scalar>>::identity();
    let mut i: usize = 0;
    proof {
        lemma_canonical_mod_zero(m);
    }
    while i < n
        invariant
            m == order::<B>(),
            m > 1,
            pks == public_keys@,
            n == pks.len(),
            n == params.parties,
            validation_outcome(*params) is Ok,
            i <= n,
            keys@.len() == i,
            forall|q: int| 0 <= q < i ==> same_key(#[trigger] keys@[q], pks[q]),
            forall|q: int| 0 <= q < i ==> (#[trigger] pks[q]).participant_id == q && pks[q].lagrange_li_lj_z@.len() == n,
            ask.dlog() == dlog_sum::<B::Scalar, B::G1>(li_column(pks.subrange(0, i as int))) % m,
        decreases n - i,
    {
        let pk = &public_keys[i];
        if pk.participant_id != i || pk.lagrange_li_lj_z.len() != n {
            return Err(Error::Protocol("public key out of place or malformed"));
        }
        proof {
            let pre = li_column(pks.subrange(0, i as int));
            let post = li_column(pks.subrange(0, i + 1));
            assert(post.drop_last() =~= pre);
            assert(post.last() == pk.lagrange_li);
            vstd::arithmetic::div_mod::lemma_add_mod_noop(dlog_sum::<B::Scalar, B::G1>(pre), pk.lagrange_li.dlog(), m);
            <B::G1 as CurvePoint<B::Scalar>>::lemma_canonical(pk.lagrange_li);
            vstd::arithmetic::div_mod::lemma_mod_twice(dlog_sum::<B::Scalar, B::G1>(pre), m);
            crate::poly::lemma_canonical_mod(pk.lagrange_li.dlog(), m);
        }
        ask = ask.add(&pk.lagrange_li);
        keys.push(copy_public_key(pk));
        i = i + 1;
    }
    proof {
        assert(pks.subrange(0, n as int) =~= pks);
    }
    let mut row_sums: Vec<B::G1> = Vec::new();
    let mut r: usize = 0;
    while r < n
        invariant
            m == order::<B>(),
            m > 1,
            pks == public_keys@,
            n == pks.len(),
            forall|q: int| 0 <= q < n ==> (#[trigger] pks[q]).participant_id == q && pks[q].lagrange_li_lj_z@.len() == n,
            r <= n,
            row_sums@.len() == r,
            forall|q: int| 0 <= q < r ==> #[trigger] row_sums@[q].dlog() == dlog_sum::<B::Scalar, B::G1>(cross_column(pks, q)) % m,
        decreases n - r,
    {
        let mut acc = <B::G1 as CurvePoint<B::Scalar>>::identity();
        let mut j: usize = 0;
        proof {
            lemma_canonical_mod_zero(m);
        }
        while j < n
            invariant
                m == order::<B>(),
                m > 1,
                pks == public_keys@,
                n == pks.len(),
                forall|q: int| 0 <= q < n ==> (#[trigger] pks[q]).participant_id == q && pks[q].lagrange_li_lj_z@.len() == n,
                r < n,
                j <= n,
                acc.dlog() == dlog_sum::<B::Scalar, B::G1>(cross_column(pks.subrange(0, j as int), r as int)) % m,
            decreases n - j,
        {
            let term = public_keys[j].lagrange_li_lj_z[r];
            proof {
                let pre = cross_column(pks.subrange(0, j as int), r as int);
                let post = cross_column(pks.subrange(0, j + 1), r as int);
                assert(post.drop_last() =~= pre);
                assert(post.last() == term);
                vstd::arithmetic::div_mod::lemma_add_mod_noop(dlog_sum::<B::Scalar, B::G1>(pre), term.dlog(), m);
                <B::G1 as CurvePoint<B::Scalar>>::lemma_canonical(term);
                vstd::arithmetic::div_mod::lemma_mod_twice(dlog_sum::<B::Scalar, B::G1>(pre), m);
                crate::poly::lemma_canonical_mod(term.dlog(), m);
            }
            acc = acc.add(&term);
            j = j + 1;
        }
        proof {
            assert(pks.subrange(0, n as int) =~= pks);
        }
        row_sums.push(acc);
        r = r + 1;
    }
    let h = <B::G2 as CurvePoint<B::Scalar>>::generator();
    let precomputed_pairing = B::pairing(&ask, &h);
    proof {
        <B::G1 as CurvePoint<B::Scalar>>::lemma_canonical(ask);
        crate::poly::lemma_canonical_mod(ask.dlog(), m);
    }
    Ok(AggregateKey {
        public_keys: keys,
        ask,
        z_g2: srs.vanishing_poly_g2,
        lagrange_row_sums: row_sums,
        precomputed_pairing,
        commitment_params: srs.duplicate(),
    })
}

/// The commitment to `p` in the first group, scaled by `sk`.
fn hint<B: PairingBackend>(srs: &SRS<B>, p: &DensePolynomial<B::Scalar>, sk: &B::Scalar) -> (r: B::G1)
    requires
        srs.wf(),
        p.coeffs@.len() <= srs.powers_of_g@.len(),
    ensures
        r.dlog() == hint_log(p@, srs.tau(), sk.val(), order::<B>()),
{
    proof {
        crate::poly::lemma_eval_support(p@, srs.tau());
    }
    match KZG::commit_g1(srs, p) {
        Ok(c) => c.mul_scalar(sk),
        Err(_) => {
            proof {
                assert(false);
            }
            <B::G1 as CurvePoint<B::Scalar>>::identity()
        },
    }
}

/// The Lagrange basis, as coefficient values, held in `polys`.
pub open spec fn basis_of<F: FieldElement>(polys: Seq<DensePolynomial<F>>) -> Seq<Seq<int>> {
    polys.map_values(|p: DensePolynomial<F>| p@)
}

/// Public key of participant `i` with secret `sk`: the BLS key and the hint
/// commitments derived from the domain's `i`-th Lagrange basis polynomial.
pub fn derive_public_key<B: PairingBackend>(
    i: usize,
    sk: &B::Scalar,
    polys: &Vec<DensePolynomial<B::Scalar>>,
    srs: &SRS<B>,
) -> (r: PublicKey<B>)
    requires
        srs.wf(),
        srs.max_degree() == polys@.len(),
        i < polys@.len(),
        2 * polys@.len() < usize::MAX,
        forall|q: int| 0 <= q < polys@.len() ==> (#[trigger] polys@[q]).coeffs@.len() == polys@.len(),
    ensures
        public_key_ok(r, i as int, sk.val(), basis_of(polys@), srs.tau()),
{
    let n = polys.len();
    let ghost m = order::<B>();
    let ghost bases = basis_of(polys@);
    let li = &polys[i];
    let g = <B::G1 as CurvePoint<B::Scalar>>::generator();
    let bls_key = g.mul_scalar(sk);
    proof {
        assert(1 * sk.val() == sk.val());
        assert(bases[i as int] == li@);
    }
    let lagrange_li = hint(srs, li, sk);
    let minus0 = li.drop_constant();
    proof {
        assert(li@.len() == li.coeffs@.len());
        assert(minus0.coeffs@.len() == minus0@.len());
    }
    let lagrange_li_minus0 = hint(srs, &minus0, sk);
    let shifted = li.shift_up();
    proof {
        assert(shifted.coeffs@.len() == shifted@.len());
    }
    let lagrange_li_x = hint(srs, &shifted, sk);
    let mut cross: Vec<B::G1> = Vec::new();
    let mut j: usize = 0;
    while j < n
        invariant
            m == order::<B>(),
            srs.wf(),
            srs.max_degree() == n,
            n == polys@.len(),
            2 * n < usize::MAX,
            i < n,
            li == &polys@[i as int],
            bases == basis_of(polys@),
            forall|q: int| 0 <= q < n ==> (#[trigger] polys@[q]).coeffs@.len() == n,
            j <= n,
            cross@.len() == j,
            forall|q: int|
                0 <= q < j ==> #[trigger] cross@[q].dlog() == hint_log(
                    cross_poly(bases, i as int, q, m),
                    srs.tau(),
                    sk.val(),
                    m,
                ),
        decreases n - j,
    {
        let lj = &polys[j];
        proof {
            assert(bases[j as int] == lj@);
            assert(bases[i as int] == li@);
        }
        let prod = if i == j {
            li.mul(li).sub(li)
        } else {
            li.mul(lj)
        };
        let q = prod.vanishing_quotient(n);
        proof {
            assert(q@ == cross_poly(bases, i as int, j as int, m));
            assert(q.coeffs@.len() == q@.len());
        }
        cross.push(hint(srs, &q, sk));
        j = j + 1;
    }
    PublicKey {
        participant_id: i,
        bls_key,
        lagrange_li,
        lagrange_li_minus0,
        lagrange_li_x,
        lagrange_li_lj_z: cross,
    }
}

/// `km` is the key material for secrets `secrets` (participant `i` holds
/// `secrets[i]`) and SRS secret `tau` on a domain of `n` parties.
pub open spec fn key_material_ok<B: PairingBackend>(
    km: KeyMaterial<B>,
    n: nat,
    secrets: Seq<B::Scalar>,
    tau: int,
) -> bool {
    &&& km.secret_keys@.len() == n
    &&& forall|i: int|
        0 <= i < n ==> (#[trigger] km.secret_keys@[i]).participant_id == i
            && km.secret_keys@[i].scalar == secrets[i]
    &&& km.kzg_params.wf()
    &&& km.kzg_params.tau() == tau
    &&& km.kzg_params.max_degree() == n
    &&& km.public_keys@.len() == n
    &&& exists|bases: Seq<Seq<int>>|
        {
            &&& bases.len() == n
            &&& forall|i: int| 0 <= i < n ==> is_lagrange_basis::<B::Scalar>(#[trigger] bases[i], n, i as nat)
            &&& forall|i: int|
                0 <= i < n ==> public_key_ok(#[trigger] km.public_keys@[i], i, secrets[i].val(), bases, tau)
        }
    &&& aggregate_of(km.aggregate_key, km.public_keys@, km.kzg_params)
}

/// Key generation for every participant from their secrets and the SRS
/// secret `tau`: the SRS, each participant's public key from the domain's
/// Lagrange basis, and the aggregate key of them all.
pub fn keygen<B: PairingBackend>(params: &ThresholdParameters, tau: &B::Scalar, secrets: &Vec<B::Scalar>) -> (r:
    Result<KeyMaterial<B>, Error>)
    requires
        // the cross terms are products of two basis polynomials, 2n - 1 coefficients
        2 * params.parties < usize::MAX,
    ensures
        validation_outcome(*params) is Err ==> r == Err::<KeyMaterial<B>, Error>(
            validation_outcome(*params)->Err_0,
        ),
        r is Ok <==> (validation_outcome(*params) is Ok && secrets@.len() == params.parties
            && domain_ok::<B::Scalar>(params.parties as nat)),
        validation_outcome(*params) is Ok && secrets@.len() != params.parties ==> r matches Err(
            Error::Protocol(_),
        ),
        validation_outcome(*params) is Ok && secrets@.len() == params.parties && !domain_ok::<
            B::Scalar,
        >(params.parties as nat) ==> r matches Err(Error::Backend(BackendError::Math(_))),
        r is Ok ==> key_material_ok(r->Ok_0, params.parties as nat, secrets@, tau.val()),
{
    match params.validate() {
        Err(e) => {
            return Err(e);
        },
        Ok(()) => {},
    }
    let n = params.parties;
    if secrets.len() != n {
        return Err(Error::Protocol("one secret per party is needed"));
    }
    let polys = match lagrange_polys::<B::Scalar>(n) {
        Ok(p) => p,
        Err(e) => {
            return Err(Error::Backend(e));
        },
    };
    proof {
        assert forall|q: int| 0 <= q < n implies (#[trigger] polys@[q]).coeffs@.len() == n by {
            assert(polys@[q].coeffs@.len() == polys@[q]@.len());
        }
    }
    let srs = match KZG::setup::<B>(n, tau) {
        Ok(s) => s,
        Err(e) => {
            return Err(Error::Backend(e));
        },
    };
    let ghost bases = basis_of(polys@);
    let mut secret_keys: Vec<SecretKey<B>> = Vec::new();
    let mut public_keys: Vec<PublicKey<B>> = Vec::new();
    let mut i: usize = 0;
    while i < n
        invariant
            n == params.parties,
            n == secrets@.len(),
            n == polys@.len(),
            2 * n < usize::MAX,
            srs.wf(),
            srs.max_degree() == n,
            srs.tau() == tau.val(),
            bases == basis_of(polys@),
            forall|q: int| 0 <= q < n ==> (#[trigger] polys@[q]).coeffs@.len() == n,
            i <= n,
            secret_keys@.len() == i,
            public_keys@.len() == i,
            forall|q: int|
                0 <= q < i ==> (#[trigger] secret_keys@[q]).participant_id == q
                    && secret_keys@[q].scalar == secrets@[q],
            forall|q: int|
                0 <= q < i ==> public_key_ok(#[trigger] public_keys@[q], q, secrets@[q].val(), bases, tau.val()),
        decreases n - i,
    {
        let sk = secrets[i];
        public_keys.push(derive_public_key(i, &sk, &polys, &srs));
        secret_keys.push(SecretKey { participant_id: i, scalar: sk });
        i = i + 1;
    }
    proof {
        assert forall|q: int| 0 <= q < n implies (#[trigger] public_keys@[q]).participant_id == q
            && public_keys@[q].lagrange_li_lj_z@.len() == n by {
            assert(public_key_ok(public_keys@[q], q, secrets@[q].val(), bases, tau.val()));
        }
    }
    let aggregate_key = match aggregate_public_key(params, public_keys.as_slice(), &srs) {
        Ok(a) => a,
        Err(e) => {
            return Err(e);
        },
    };
    proof {
        assert forall|q: int| 0 <= q < n implies is_lagrange_basis::<B::Scalar>(#[trigger] bases[q], n as nat, q as nat) by {
            assert(bases[q] == polys@[q]@);
        }
    }
    Ok(KeyMaterial { secret_keys, public_keys, aggregate_key, kzg_params: srs })
}

/// Recomputing the aggregate key from the public keys that key generation
/// produced (under the same parameters) gives the aggregate key that key
/// generation embedded, field for field.
pub proof fn lemma_aggregate_matches_keygen<B: PairingBackend>(
    km: KeyMaterial<B>,
    n: nat,
    secrets: Seq<B::Scalar>,
    tau: int,
    recomputed: AggregateKey<B>,
)
    requires
        key_material_ok(km, n, secrets, tau),
        aggregate_of(recomputed, km.public_keys@, km.kzg_params),
    ensures
        recomputed.public_keys@.len() == km.aggregate_key.public_keys@.len(),
        forall|i: int|
            0 <= i < n ==> same_key(#[trigger] recomputed.public_keys@[i], km.aggregate_key.public_keys@[i]),
        recomputed.ask.dlog() == km.aggregate_key.ask.dlog(),
        recomputed.z_g2 == km.aggregate_key.z_g2,
        recomputed.lagrange_row_sums@.len() == km.aggregate_key.lagrange_row_sums@.len(),
        forall|i: int|
            0 <= i < n ==> #[trigger] recomputed.lagrange_row_sums@[i].dlog()
                == km.aggregate_key.lagrange_row_sums@[i].dlog(),
        recomputed.precomputed_pairing.tlog() == km.aggregate_key.precomputed_pairing.tlog(),
        recomputed.commitment_params.same_as(&km.aggregate_key.commitment_params),
{
    assert forall|i: int| 0 <= i < n implies same_key(#[trigger] recomputed.public_keys@[i], km.aggregate_key.public_keys@[i]) by {
        assert(same_key(recomputed.public_keys@[i], km.public_keys@[i]));
        assert(same_key(km.aggregate_key.public_keys@[i], km.public_keys@[i]));
    }
}

/// `ct` encrypts `payload` under `agg` for threshold `t` with ephemeral
/// secret `gamma`: `gamma_g2 = h^gamma`, the opening elements
/// `g^(gamma tau^t)` and `Z(tau)^gamma` in the second group, the shared secret
/// `e(ask, h^gamma)`, and the payload XORed with its keystream.  The
/// ciphertext carries the shared secret itself, so it must be kept as
/// private as the payload.
pub open spec fn encrypted<B: PairingBackend>(
    ct: Ciphertext<B>,
    agg: AggregateKey<B>,
    t: nat,
    gamma: int,
    payload: Seq<u8>,
) -> bool {
    let m = order::<B>();
    &&& ct.gamma_g2.dlog() == gamma % m
    &&& ct.proof_g1@.len() == 1
    &&& ct.proof_g1@[0].dlog() == (agg.commitment_params.powers_of_g@[t as int].dlog() * gamma) % m
    &&& ct.proof_g2@.len() == 1
    &&& ct.proof_g2@[0].dlog() == (agg.z_g2.dlog() * gamma) % m
    &&& ct.shared_secret.tlog() == (agg.ask.dlog() * ct.gamma_g2.dlog()) % m
    &&& ct.threshold == t
    &&& ct.payload@ == xor_seq(payload, payload_keystream(ct.shared_secret.repr(), payload.len()))
    &&& payload_keystream(ct.shared_secret.repr(), payload.len()).len() == payload.len()
}

/// Encrypts `payload` under the aggregate key with ephemeral secret `gamma`.
pub fn encrypt<B: PairingBackend>(
    agg_key: &AggregateKey<B>,
    params: &ThresholdParameters,
    gamma: &B::Scalar,
    payload: &[u8],
) -> (r: Result<Ciphertext<B>, Error>)
    ensures
        validation_outcome(*params) is Err ==> r == Err::<Ciphertext<B>, Error>(
            validation_outcome(*params)->Err_0,
        ),
        r is Ok <==> (validation_outcome(*params) is Ok && payload@.len() <= params.chunk_size
            && params.threshold < agg_key.commitment_params.powers_of_g@.len()),
        validation_outcome(*params) is Ok && payload@.len() > params.chunk_size ==> r matches Err(
            Error::Protocol(_),
        ),
        validation_outcome(*params) is Ok && payload@.len() <= params.chunk_size && params.threshold
            >= agg_key.commitment_params.powers_of_g@.len() ==> r matches Err(
            Error::Backend(BackendError::Math(_)),
        ),
        r is Ok ==> encrypted(r->Ok_0, *agg_key, params.threshold as nat, gamma.val(), payload@),
{
    match params.validate() {
        Err(e) => {
            return Err(e);
        },
        Ok(()) => {},
    }
    if payload.len() > params.chunk_size {
        return Err(Error::Protocol("payload exceeds the chunk size"));
    }
    let t = params.threshold;
    if t >= agg_key.commitment_params.powers_of_g.len() {
        return Err(Error::Backend(BackendError::Math("threshold exceeds the supported degree")));
    }
    proof {
        <B::Scalar as FieldElement>::lemma_canonical(*gamma);
        crate::poly::lemma_canonical_mod(gamma.val(), order::<B>());
        assert(1 * gamma.val() == gamma.val());
    }
    let h = <B::G2 as CurvePoint<B::Scalar>>::generator();
    let gamma_g2 = h.mul_scalar(gamma);
    let mut proof_g1: Vec<B::G1> = Vec::new();
    proof_g1.push(agg_key.commitment_params.powers_of_g[t].mul_scalar(gamma));
    let mut proof_g2: Vec<B::G2> = Vec::new();
    proof_g2.push(agg_key.z_g2.mul_scalar(gamma));
    let shared_secret = B::pairing(&agg_key.ask, &gamma_g2);
    let sealed = encrypt_payload::<B>(&shared_secret, payload);
    Ok(Ciphertext { gamma_g2, proof_g1, proof_g2, shared_secret, threshold: t, payload: sealed })
}

/// A share verifies against its participant's BLS key:
/// `e(pk_i, gamma_g2) == e(g, response)`.
pub open spec fn share_verifies<B: PairingBackend>(
    agg: AggregateKey<B>,
    ct: Ciphertext<B>,
    p: PartialDecryption<B>,
) -> bool {
    let m = order::<B>();
    (agg.public_keys@[p.participant_id as int].bls_key.dlog() * ct.gamma_g2.dlog()) % m == (1
        * p.response.dlog()) % m
}

/// Everything aggregation checks before it decrypts: an acceptable share set,
/// every share verified, opening elements consistent with the threshold's
/// power of tau, the vanishing commitment and `gamma_g2`, and the shared
/// secret consistent with `ask`.
pub open spec fn decryption_accepted<B: PairingBackend>(
    ct: Ciphertext<B>,
    partials: Seq<PartialDecryption<B>>,
    selector: Seq<bool>,
    agg: AggregateKey<B>,
) -> bool {
    let m = order::<B>();
    let t = ct.threshold as int;
    let pt = agg.commitment_params.powers_of_g@[t];
    &&& shares_acceptable(share_ids(partials), selector, agg.public_keys@.len(), ct.threshold as nat)
    &&& forall|k: int| 0 <= k < partials.len() ==> share_verifies(agg, ct, #[trigger] partials[k])
    &&& t < agg.commitment_params.powers_of_g@.len()
    &&& ct.proof_g1@.len() == 1
    &&& ct.proof_g2@.len() == 1
    &&& (ct.proof_g1@[0].dlog() * agg.z_g2.dlog()) % m == (pt.dlog() * ct.proof_g2@[0].dlog()) % m
    &&& (ct.proof_g1@[0].dlog() * 1) % m == (pt.dlog() * ct.gamma_g2.dlog()) % m
    &&& (agg.ask.dlog() * ct.gamma_g2.dlog()) % m == ct.shared_secret.tlog()
}

/// Checks the shares of the selected participants and the ciphertext, then
/// decrypts the payload.  Each share is verified on its own against its
/// participant's BLS key; the shares are not combined into a decryption key.
/// The key is the shared secret that the ciphertext carries, accepted once it
/// matches `e(ask, gamma_g2)`.
pub fn aggregate_decrypt<B: PairingBackend>(
    ciphertext: &Ciphertext<B>,
    partials: &[PartialDecryption<B>],
    selector: &[bool],
    agg_key: &AggregateKey<B>,
) -> (r: Result<DecryptionResult<B>, Error>)
    ensures
        r is Ok <==> decryption_accepted(*ciphertext, partials@, selector@, *agg_key),
        r is Err ==> r->Err_0 is Protocol,
        r is Ok ==> ({
            let d = r->Ok_0;
            &&& d.shared_secret == ciphertext.shared_secret
            &&& d.opening_proof is None
            &&& d.plaintext is Some
            &&& d.plaintext->Some_0@ == xor_seq(
                ciphertext.payload@,
                payload_keystream(ciphertext.shared_secret.repr(), ciphertext.payload@.len()),
            )
        }),
{
    let n = agg_key.public_keys.len();
    let t = ciphertext.threshold;
    check_partials(partials, selector, n, t)?;
    let ghost ids = share_ids(partials@);
    let g = <B::G1 as CurvePoint<B::Scalar>>::generator();
    let h = <B::G2 as CurvePoint<B::Scalar>>::generator();
    let mut k: usize = 0;
    while k < partials.len()
        invariant
            n == agg_key.public_keys@.len(),
            t == ciphertext.threshold,
            ids == share_ids(partials@),
            shares_acceptable(ids, selector@, n as nat, t as nat),
            g.dlog() == 1,
            k <= partials@.len(),
            forall|q: int| 0 <= q < k ==> share_verifies(*agg_key, *ciphertext, #[trigger] partials@[q]),
        decreases partials@.len() - k,
    {
        let p = &partials[k];
        assert(ids[k as int] == p.participant_id);
        let pk = &agg_key.public_keys[p.participant_id];
        let lhs = B::pairing(&pk.bls_key, &ciphertext.gamma_g2);
        let rhs = B::pairing(&g, &p.response);
        if !lhs.equals(&rhs) {
            return Err(Error::Protocol("partial decryption does not verify"));
        }
        k = k + 1;
    }
    let params = &agg_key.commitment_params;
    if t >= params.powers_of_g.len() || ciphertext.proof_g1.len() != 1 || ciphertext.proof_g2.len() != 1 {
        return Err(Error::Protocol("ciphertext does not fit the aggregate key"));
    }
    let pt = params.powers_of_g[t];
    let bound_z = B::pairing(&ciphertext.proof_g1[0], &agg_key.z_g2);
    let bound_t = B::pairing(&pt, &ciphertext.proof_g2[0]);
    let opened = B::pairing(&ciphertext.proof_g1[0], &h);
    let expected = B::pairing(&pt, &ciphertext.gamma_g2);
    if !bound_z.equals(&bound_t) || !opened.equals(&expected) {
        return Err(Error::Protocol("opening elements are inconsistent"));
    }
    let secret = B::pairing(&agg_key.ask, &ciphertext.gamma_g2);
    if !secret.equals(&ciphertext.shared_secret) {
        proof {
            <B::Target as TargetGroup<B::Scalar>>::lemma_canonical(ciphertext.shared_secret);
        }
        return Err(Error::Protocol("shared secret does not match the aggregate key"));
    }
    proof {
        <B::Target as TargetGroup<B::Scalar>>::lemma_canonical(ciphertext.shared_secret);
        crate::poly::lemma_canonical_mod(ciphertext.shared_secret.tlog(), order::<B>());
    }
    let plaintext = decrypt_payload::<B>(&ciphertext.shared_secret, ciphertext.payload.as_slice());
    Ok(DecryptionResult {
        shared_secret: ciphertext.shared_secret,
        opening_proof: None,
        plaintext: Some(plaintext),
    })
}

/// Round trip: an encryption under the aggregate key, decrypted with honest
/// shares (each the ephemeral commitment scaled by the secret behind the
/// participant's BLS key) from any acceptable set of more than `t`
/// participants, is accepted and yields the payload.
pub proof fn lemma_threshold_round_trip<B: PairingBackend>(
    ct: Ciphertext<B>,
    agg: AggregateKey<B>,
    t: nat,
    gamma: int,
    payload: Seq<u8>,
    partials: Seq<PartialDecryption<B>>,
    selector: Seq<bool>,
)
    requires
        encrypted(ct, agg, t, gamma, payload),
        t < agg.commitment_params.powers_of_g@.len(),
        shares_acceptable(share_ids(partials), selector, agg.public_keys@.len(), t),
        forall|k: int|
            0 <= k < partials.len() ==> (#[trigger] partials[k]).response.dlog() == (ct.gamma_g2.dlog()
                * agg.public_keys@[partials[k].participant_id as int].bls_key.dlog()) % order::<B>(),
    ensures
        decryption_accepted(ct, partials, selector, agg),
        xor_seq(ct.payload@, payload_keystream(ct.shared_secret.repr(), ct.payload@.len())) == payload,
{
    let m = order::<B>();
    <B::Scalar as FieldElement>::lemma_modulus();
    let ti = t as int;
    let pt = agg.commitment_params.powers_of_g@[ti].dlog();
    let z = agg.z_g2.dlog();
    let gd = ct.gamma_g2.dlog();
    assert forall|k: int| 0 <= k < partials.len() implies share_verifies(agg, ct, #[trigger] partials[k]) by {
        let bls = agg.public_keys@[partials[k].participant_id as int].bls_key.dlog();
        vstd::arithmetic::mul::lemma_mul_is_commutative(bls, gd);
        vstd::arithmetic::div_mod::lemma_mod_twice(gd * bls, m);
        assert(1 * partials[k].response.dlog() == partials[k].response.dlog());
    }
    // (pt gamma mod m) z == pt (z gamma mod m), modulo m
    lemma_mod_mul_comm(pt, gamma, z, m);
    // (pt gamma mod m) * 1 == pt (gamma mod m), modulo m
    vstd::arithmetic::div_mod::lemma_mod_twice(pt * gamma, m);
    vstd::arithmetic::div_mod::lemma_mul_mod_noop_right(pt, gamma, m);
    assert(((pt * gamma) % m) * 1 == (pt * gamma) % m);
    // the payload comes back
    let ks = payload_keystream(ct.shared_secret.repr(), payload.len());
    assert(ct.payload@.len() == payload.len());
    lemma_payload_round_trip(ks, payload);
}

proof fn lemma_mod_mul_comm(a: int, g: int, z: int, m: int)
    requires
        m > 0,
    ensures
        (((a * g) % m) * z) % m == (a * ((z * g) % m)) % m,
{
    vstd::arithmetic::div_mod::lemma_mul_mod_noop_left(a * g, z, m);
    vstd::arithmetic::div_mod::lemma_mul_mod_noop_right(a, z * g, m);
    assert((a * g) * z == a * (z * g)) by (nonlinear_arith);
}

/// With no more shares than the threshold, aggregation refuses to decrypt.
pub proof fn lemma_too_few_shares<B: PairingBackend>(
    ct: Ciphertext<B>,
    partials: Seq<PartialDecryption<B>>,
    selector: Seq<bool>,
    agg: AggregateKey<B>,
)
    requires
        partials.len() <= ct.threshold,
    ensures
        !decryption_accepted(ct, partials, selector, agg),
{
}

/// Two encryptions with ephemeral secrets that differ (as scalars) have
/// different ephemeral commitments, and both decrypt, with honest shares
/// from any acceptable sets, to the same payload.
pub proof fn lemma_fresh_randomness<B: PairingBackend>(
    agg: AggregateKey<B>,
    t: nat,
    payload: Seq<u8>,
    ct1: Ciphertext<B>,
    gamma1: int,
    partials1: Seq<PartialDecryption<B>>,
    selector1: Seq<bool>,
    ct2: Ciphertext<B>,
    gamma2: int,
    partials2: Seq<PartialDecryption<B>>,
    selector2: Seq<bool>,
)
    requires
        gamma1 % order::<B>() != gamma2 % order::<B>(),
        encrypted(ct1, agg, t, gamma1, payload),
        encrypted(ct2, agg, t, gamma2, payload),
        t < agg.commitment_params.powers_of_g@.len(),
        shares_acceptable(share_ids(partials1), selector1, agg.public_keys@.len(), t),
        shares_acceptable(share_ids(partials2), selector2, agg.public_keys@.len(), t),
        forall|k: int|
            0 <= k < partials1.len() ==> (#[trigger] partials1[k]).response.dlog() == (ct1.gamma_g2.dlog()
                * agg.public_keys@[partials1[k].participant_id as int].bls_key.dlog()) % order::<B>(),
        forall|k: int|
            0 <= k < partials2.len() ==> (#[trigger] partials2[k]).response.dlog() == (ct2.gamma_g2.dlog()
                * agg.public_keys@[partials2[k].participant_id as int].bls_key.dlog()) % order::<B>(),
    ensures
        ct1.gamma_g2.dlog() != ct2.gamma_g2.dlog(),
        decryption_accepted(ct1, partials1, selector1, agg),
        decryption_accepted(ct2, partials2, selector2, agg),
        xor_seq(ct1.payload@, payload_keystream(ct1.shared_secret.repr(), ct1.payload@.len()))
            == xor_seq(ct2.payload@, payload_keystream(ct2.shared_secret.repr(), ct2.payload@.len())),
{
    lemma_threshold_round_trip(ct1, agg, t, gamma1, payload, partials1, selector1);
    lemma_threshold_round_trip(ct2, agg, t, gamma2, payload, partials2, selector2);
}

proof fn lemma_canonical_mod_zero(m: int)
    requires
        m > 0,
    ensures
        0int % m == 0,
{
    crate::poly::lemma_canonical_mod(0, m);
}

/// Domain tag of the payload keystream.
pub const PAYLOAD_KDF_DOMAIN: &'static str = "TESS::threshold::payload";

/// Keystream of `len` bytes for a target-group secret with encoding `repr`.
pub open spec fn payload_keystream(repr: Seq<u8>, len: nat) -> Seq<u8> {
    keystream_of(PAYLOAD_KDF_DOMAIN.spec_bytes(), repr, len)
}

/// Derives `len` keystream bytes from the canonical encoding of `secret`.
pub fn derive_keystream<B: PairingBackend>(secret: &B::Target, len: usize) -> (r: Vec<u8>)
    ensures
        r@ == payload_keystream(secret.repr(), len as nat),
        r@.len() == len,
{
    if len == 0 {
        return Vec::new();
    }
    let repr = secret.to_repr();
    derive_keystream_bytes(PAYLOAD_KDF_DOMAIN.as_bytes(), repr.as_slice(), len)
}

/// XORs `data` with `keystream` over their common length.
pub fn xor_with_keystream(data: &[u8], keystream: &[u8]) -> (r: Vec<u8>)
    ensures
        r@ == xor_seq(data@, keystream@),
{
    xor_bytes(data, keystream)
}

/// Stream-encrypts `payload` under the keystream derived from `secret`.
pub fn encrypt_payload<B: PairingBackend>(secret: &B::Target, payload: &[u8]) -> (r: Vec<u8>)
    ensures
        r@ == xor_seq(payload@, payload_keystream(secret.repr(), payload@.len())),
        r@.len() == payload@.len(),
        payload_keystream(secret.repr(), payload@.len()).len() == payload@.len(),
{
    let keystream = derive_keystream::<B>(secret, payload.len());
    xor_with_keystream(payload, keystream.as_slice())
}

/// Inverse of `encrypt_payload` (the same XOR with the same keystream).
pub fn decrypt_payload<B: PairingBackend>(secret: &B::Target, ciphertext: &[u8]) -> (r: Vec<u8>)
    ensures
        r@ == xor_seq(ciphertext@, payload_keystream(secret.repr(), ciphertext@.len())),
        r@.len() == ciphertext@.len(),
        payload_keystream(secret.repr(), ciphertext@.len()).len() == ciphertext@.len(),
{
    let keystream = derive_keystream::<B>(secret, ciphertext.len());
    xor_with_keystream(ciphertext, keystream.as_slice())
}

/// XOR with a keystream of the data's length undoes itself, in whichever order
/// the operands are given: decrypting an encrypted payload under the same
/// secret yields the payload.
pub proof fn lemma_payload_round_trip(ks: Seq<u8>, payload: Seq<u8>)
    requires
        ks.len() == payload.len(),
    ensures
        xor_seq(xor_seq(payload, ks), ks) == payload,
{
    let once = xor_seq(payload, ks);
    let twice = xor_seq(once, ks);
    assert forall|i: int| 0 <= i < payload.len() implies #[trigger] twice[i] == payload[i] by {
        let k = ks[i];
        let d = payload[i];
        assert((d ^ k) ^ k == d) by (bit_vector);
    }
    assert(twice =~= payload);
}

/// A participant's share of a decryption: the ciphertext's ephemeral
/// commitment scaled by the participant's secret.
pub fn partial_decrypt<B: PairingBackend>(secret_key: &SecretKey<B>, ciphertext: &Ciphertext<B>) -> (r:
    Result<PartialDecryption<B>, Error>)
    ensures
        r is Ok,
        r->Ok_0.participant_id == secret_key.participant_id,
        r->Ok_0.response.dlog() == (ciphertext.gamma_g2.dlog() * secret_key.scalar.val()) % order::<B>(),
{
    let response = ciphertext.gamma_g2.mul_scalar(&secret_key.scalar);
    Ok(PartialDecryption { participant_id: secret_key.participant_id, response })
}

/// Number of `true` entries among the first `k` of `s`.
pub open spec fn count_true(s: Seq<bool>, k: nat) -> nat
    decreases k,
{
    if k == 0 {
        0
    } else {
        count_true(s, (k - 1) as nat) + if s[k - 1] {
            1nat
        } else {
            0nat
        }
    }
}

/// A set of shares (by participant id) fits the selector and the threshold:
/// one selector entry per party, distinct ids that are all selected, every
/// selected participant present, and more than `threshold` shares.
pub open spec fn shares_acceptable(ids: Seq<usize>, selector: Seq<bool>, parties: nat, threshold: nat) -> bool {
    &&& selector.len() == parties
    &&& forall|k: int| 0 <= k < ids.len() ==> (#[trigger] ids[k] as int) < parties && selector[ids[k] as int]
    &&& forall|a: int, b: int| 0 <= a < b < ids.len() ==> ids[a] != ids[b]
    &&& count_true(selector, parties) == ids.len()
    &&& ids.len() > threshold
}

/// Participant ids of a list of shares.
pub open spec fn share_ids<B: PairingBackend>(partials: Seq<PartialDecryption<B>>) -> Seq<usize> {
    partials.map_values(|p: PartialDecryption<B>| p.participant_id)
}

/// Checks the shares handed to decryption aggregation against the selector
/// and the threshold before any pairing work.
pub fn check_partials<B: PairingBackend>(
    partials: &[PartialDecryption<B>],
    selector: &[bool],
    parties: usize,
    threshold: usize,
) -> (r: Result<(), Error>)
    ensures
        r is Ok <==> shares_acceptable(share_ids(partials@), selector@, parties as nat, threshold as nat),
        r is Err ==> r->Err_0 is Protocol,
{
    let ghost ids = share_ids(partials@);
    if selector.len() != parties {
        return Err(Error::Protocol("selector length differs from the party count"));
    }
    let mut seen: Vec<bool> = Vec::new();
    let mut q: usize = 0;
    while q < parties
        invariant
            q <= parties,
            seen@.len() == q,
            forall|j: int| 0 <= j < q ==> !seen@[j],
        decreases parties - q,
    {
        seen.push(false);
        q = q + 1;
    }
    let mut k: usize = 0;
    while k < partials.len()
        invariant
            ids == share_ids(partials@),
            selector@.len() == parties,
            seen@.len() == parties,
            k <= partials@.len(),
            forall|a: int| 0 <= a < k ==> (#[trigger] ids[a] as int) < parties && selector@[ids[a] as int],
            forall|a: int, b: int| 0 <= a < b < k ==> ids[a] != ids[b],
            forall|j: int| 0 <= j < parties ==> (#[trigger] seen@[j] <==> exists|a: int| 0 <= a < k && ids[a] == j),
        decreases partials@.len() - k,
    {
        let id = partials[k].participant_id;
        assert(ids[k as int] == id);
        if id >= parties || !selector[id] {
            return Err(Error::Protocol("share from a participant that the selector does not mark"));
        }
        if seen[id] {
            proof {
                let a = choose|a: int| 0 <= a < k && ids[a] == id;
                assert(ids[a] == ids[k as int]);
            }
            return Err(Error::Protocol("duplicate share"));
        }
        seen.set(id, true);
        proof {
            assert forall|j: int| 0 <= j < parties implies (#[trigger] seen@[j] <==> exists|a: int| 0 <= a < k + 1 && ids[a] == j) by {
                if j == id as int {
                    assert(ids[k as int] == j);
                } else if seen@[j] {
                    let a = choose|a: int| 0 <= a < k && ids[a] == j;
                    assert(0 <= a < k + 1 && ids[a] == j);
                }
            }
        }
        k = k + 1;
    }
    let mut count: usize = 0;
    let mut j: usize = 0;
    while j < parties
        invariant
            selector@.len() == parties,
            j <= parties,
            count == count_true(selector@, j as nat),
            count <= j,
        decreases parties - j,
    {
        if selector[j] {
            count = count + 1;
        }
        j = j + 1;
    }
    if count != partials.len() {
        return Err(Error::Protocol("selector and shares disagree"));
    }
    if partials.len() <= threshold {
        return Err(Error::Protocol("not enough shares for the threshold"));
    }
    Ok(())
}

} // verus!
