use tess::backend::{CurvePoint, FieldElement};
use tess::config::{BackendConfig, BackendId, CurveId, ThresholdParameters};
use tess::errors::{BackendError, ConfigIssue, Error};
use tess::kzg::KZG;
use tess::lagrange::lagrange_polys;
use tess::protocol::{aggregate_public_key, keygen, AggregateKey, PublicKey};
use tess::transparent::{ExpPoint, ExpTarget, TransparentBackend, Zp};

type B = TransparentBackend;

fn z(v: u64) -> Zp {
    Zp { v: v % 17 }
}

fn params(parties: usize, threshold: usize) -> ThresholdParameters {
    ThresholdParameters {
        parties,
        threshold,
        chunk_size: 32,
        backend: BackendConfig::new(BackendId::Transparent, CurveId::Z17),
        kzg_tau: None,
    }
}

fn secrets(n: usize) -> Vec<Zp> {
    (0..n).map(|i| z(3 * i as u64 + 2)).collect()
}

fn eval(c: &[Zp], x: Zp) -> Zp {
    let mut acc = z(0);
    for coef in c.iter().rev() {
        acc = acc.mul(&x).add(coef);
    }
    acc
}

fn same_key(a: &PublicKey<B>, b: &PublicKey<B>) -> bool {
    a.participant_id == b.participant_id
        && a.bls_key == b.bls_key
        && a.lagrange_li == b.lagrange_li
        && a.lagrange_li_minus0 == b.lagrange_li_minus0
        && a.lagrange_li_x == b.lagrange_li_x
        && a.lagrange_li_lj_z == b.lagrange_li_lj_z
}

fn same_aggregate(a: &AggregateKey<B>, b: &AggregateKey<B>) -> bool {
    a.public_keys.len() == b.public_keys.len()
        && a.public_keys.iter().zip(b.public_keys.iter()).all(|(x, y)| same_key(x, y))
        && a.ask == b.ask
        && a.z_g2 == b.z_g2
        && a.lagrange_row_sums == b.lagrange_row_sums
        && a.precomputed_pairing == b.precomputed_pairing
        && a.commitment_params.powers_of_g == b.commitment_params.powers_of_g
        && a.commitment_params.powers_of_h == b.commitment_params.powers_of_h
        && a.commitment_params.vanishing_poly_g2 == b.commitment_params.vanishing_poly_g2
}

#[test]
fn keygen_public_keys_follow_the_basis() {
    let n = 8;
    let tau = z(5);
    let sks = secrets(n);
    let km = keygen::<B>(&params(n, 3), &tau, &sks).unwrap();
    let bases = lagrange_polys::<Zp>(n).unwrap();
    assert_eq!(km.secret_keys.len(), n);
    assert_eq!(km.public_keys.len(), n);
    let mut ask = z(0);
    for i in 0..n {
        let sk = sks[i];
        assert_eq!(km.secret_keys[i].participant_id, i);
        assert_eq!(km.secret_keys[i].scalar, sk);
        let pk = &km.public_keys[i];
        assert_eq!(pk.participant_id, i);
        assert_eq!(pk.bls_key, ExpPoint { log: sk });
        let li = &bases[i].coeffs;
        let li_tau = eval(li, tau);
        assert_eq!(pk.lagrange_li, ExpPoint { log: li_tau.mul(&sk) });
        let minus0 = li_tau.sub(&li[0]);
        assert_eq!(pk.lagrange_li_minus0, ExpPoint { log: minus0.mul(&sk) });
        assert_eq!(pk.lagrange_li_x, ExpPoint { log: tau.mul(&li_tau).mul(&sk) });
        assert_eq!(pk.lagrange_li_lj_z.len(), n);
        ask = ask.add(&li_tau.mul(&sk));
    }
    assert_eq!(km.aggregate_key.ask, ExpPoint { log: ask });
    assert_eq!(km.aggregate_key.precomputed_pairing, ExpTarget { log: ask });
    assert_eq!(km.aggregate_key.z_g2, km.kzg_params.vanishing_poly_g2);
}

#[test]
fn cross_terms_divide_by_the_vanishing_polynomial() {
    // L_i * L_j vanishes on the domain, so L_i L_j = q * (X^n - 1) exactly
    let n = 4;
    let tau = z(6);
    let sks = secrets(n);
    let km = keygen::<B>(&params(n, 2), &tau, &sks).unwrap();
    let bases = lagrange_polys::<Zp>(n).unwrap();
    let z_tau = eval(&[z(16), z(0), z(0), z(0), z(1)], tau);
    for i in 0..n {
        for j in 0..n {
            let li = eval(&bases[i].coeffs, tau);
            let lj = eval(&bases[j].coeffs, tau);
            let numerator = if i == j { li.mul(&li).sub(&li) } else { li.mul(&lj) };
            let term = km.public_keys[i].lagrange_li_lj_z[j];
            // term = sk_i * q(tau), and q(tau) * Z(tau) == numerator
            let q_tau_times_sk = term.log;
            assert_eq!(q_tau_times_sk.mul(&z_tau), numerator.mul(&sks[i]), "i={} j={}", i, j);
        }
    }
}

#[test]
fn aggregate_of_keygen_keys_matches() {
    for n in [2usize, 4, 16] {
        let p = params(n, 1);
        let km = keygen::<B>(&p, &z(7), &secrets(n)).unwrap();
        let again = aggregate_public_key(&p, &km.public_keys, &km.kzg_params).unwrap();
        assert!(same_aggregate(&again, &km.aggregate_key));
    }
}

#[test]
fn keygen_rejections() {
    let sks = secrets(16);
    assert_eq!(
        keygen::<B>(&params(15, 3), &z(2), &sks).err(),
        Some(Error::InvalidConfig(ConfigIssue::PartiesNotPowerOfTwo))
    );
    assert_eq!(
        keygen::<B>(&params(16, 0), &z(2), &sks).err(),
        Some(Error::InvalidConfig(ConfigIssue::ThresholdOutOfRange))
    );
    assert!(matches!(
        keygen::<B>(&params(8, 3), &z(2), &sks),
        Err(Error::Protocol(_))
    ));
    // the transparent field has no domain of 32 points
    assert!(matches!(
        keygen::<B>(&params(32, 3), &z(2), &secrets(32)),
        Err(Error::Backend(BackendError::Math(_)))
    ));
}

#[test]
fn aggregate_rejects_malformed_key_sets() {
    let p = params(4, 2);
    let km = keygen::<B>(&p, &z(3), &secrets(4)).unwrap();
    let mut keys = km.public_keys.clone();
    keys.swap(0, 1);
    assert!(aggregate_public_key(&p, &keys, &km.kzg_params).is_err());
    assert!(aggregate_public_key(&p, &km.public_keys[..3], &km.kzg_params).is_err());
    assert!(aggregate_public_key(&params(4, 5), &km.public_keys, &km.kzg_params).is_err());
}

#[test]
fn srs_for_keygen_matches_setup() {
    let km = keygen::<B>(&params(4, 2), &z(9), &secrets(4)).unwrap();
    let srs = KZG::setup::<B>(4, &z(9)).unwrap();
    assert_eq!(km.kzg_params.powers_of_g, srs.powers_of_g);
    assert_eq!(km.kzg_params.powers_of_g[1], ExpPoint::generator().mul_scalar(&z(9)));
}
