use tess::backend::{CurvePoint, FieldElement};
use tess::kzg::{setup_powers_bls, SRS, KZG};
use tess::poly::DensePolynomial;
use tess::transparent::{ExpPoint, ExpTarget, TransparentBackend, Zp};

type B = TransparentBackend;

fn z(v: u64) -> Zp {
    Zp { v: v % 17 }
}

fn pt(v: u64) -> ExpPoint {
    ExpPoint { log: z(v) }
}

fn poly(c: &[u64]) -> DensePolynomial<Zp> {
    DensePolynomial::from_coefficients_vec(c.iter().map(|&x| z(x)).collect())
}

fn eval(c: &[u64], x: u64) -> u64 {
    let mut acc = 0u64;
    for &coef in c.iter().rev() {
        acc = (acc * x + coef) % 17;
    }
    acc
}

#[test]
fn setup_rejects_degree_zero() {
    assert!(KZG::setup::<B>(0, &z(5)).is_err());
    let err = SRS::<B>::new(&z(5), 0).err().unwrap();
    assert!(err.starts_with("SRS setup failed"));
    assert!(matches!(KZG::setup::<B>(0, &z(5)), Err(tess::errors::BackendError::Math("degree must be >= 1"))));
    assert!(setup_powers_bls::<B>(0, &z(5)).is_err());
}

#[test]
fn setup_powers_of_tau() {
    let srs = KZG::setup::<B>(4, &z(7)).unwrap();
    // 7^i mod 17 = 1, 7, 49 % 17 = 15, 105 % 17 = 3, 21 % 17 = 4
    let expected = [1u64, 7, 15, 3, 4];
    assert_eq!(srs.powers_of_g.len(), 5);
    assert_eq!(srs.powers_of_h.len(), 5);
    for (i, e) in expected.iter().enumerate() {
        assert_eq!(srs.powers_of_g[i], pt(*e));
        assert_eq!(srs.powers_of_h[i], pt(*e));
    }
    assert_eq!(srs.e_gh, ExpTarget { log: z(1) });
    assert_eq!(srs.lagrange_commitments, vec![pt(1); 4]);
    // h^(tau^4) - h = 4 - 1
    assert_eq!(srs.vanishing_poly_g2, pt(3));
}

#[test]
fn commit_evaluates_at_tau() {
    let srs = SRS::<B>::new(&z(11), 3).unwrap();
    let c = [3u64, 0, 5, 2];
    // 3 + 5 * 121 + 2 * 1331 = 3270 = 17 * 192 + 6
    assert_eq!(eval(&c, 11), 6);
    assert_eq!(KZG::commit_g1(&srs, &poly(&c)).unwrap(), pt(6));
    assert_eq!(KZG::commit_g2(&srs, &poly(&c)).unwrap(), pt(6));
}

#[test]
fn commit_degree_bound() {
    let srs = SRS::<B>::new(&z(11), 2).unwrap();
    assert!(matches!(
        KZG::commit_g1(&srs, &poly(&[1, 2, 3, 4])),
        Err(tess::errors::BackendError::Math("polynomial degree too large"))
    ));
    assert!(KZG::commit_g2(&srs, &poly(&[1, 2, 3, 4])).is_err());
    // trailing zeros do not count towards the degree
    assert_eq!(
        KZG::commit_g1(&srs, &poly(&[1, 2, 3, 0, 0])).unwrap(),
        pt(eval(&[1, 2, 3], 11))
    );
    assert_eq!(KZG::commit_g1(&srs, &poly(&[])).unwrap(), pt(0));
}

#[test]
fn commit_is_linear() {
    let srs = SRS::<B>::new(&z(13), 5).unwrap();
    let p = [9u64, 8, 7, 6, 5, 4];
    let q = [1u64, 0, 3, 0, 5];
    for (a, b) in [(z(2), z(16)), (z(0), z(5)), (z(11), z(3))] {
        let r: Vec<u64> = (0..6)
            .map(|i| {
                let pi = z(*p.get(i).unwrap_or(&0));
                let qi = z(*q.get(i).unwrap_or(&0));
                a.mul(&pi).add(&b.mul(&qi)).v
            })
            .collect();
        let cp = KZG::commit_g1(&srs, &poly(&p)).unwrap();
        let cq = KZG::commit_g1(&srs, &poly(&q)).unwrap();
        let cr = KZG::commit_g1(&srs, &poly(&r)).unwrap();
        assert_eq!(cr, cp.mul_scalar(&a).add(&cq.mul_scalar(&b)));
        let dp = KZG::commit_g2(&srs, &poly(&p)).unwrap();
        let dq = KZG::commit_g2(&srs, &poly(&q)).unwrap();
        let dr = KZG::commit_g2(&srs, &poly(&r)).unwrap();
        assert_eq!(dr, dp.mul_scalar(&a).add(&dq.mul_scalar(&b)));
    }
}

#[test]
fn polynomial_degree() {
    assert_eq!(poly(&[]).degree(), 0);
    assert_eq!(poly(&[0, 0]).degree(), 0);
    assert_eq!(poly(&[1, 2, 0]).degree(), 1);
    assert_eq!(poly(&[0, 0, 4]).degree(), 2);
}

#[test]
fn commit_of_linear_combination() {
    let srs = SRS::<B>::new(&z(4), 6).unwrap();
    let p = poly(&[1, 2, 3, 4, 5, 6, 7]);
    let q = poly(&[16, 0, 9]);
    let (a, b) = (z(5), z(12));
    let r = p.linear_combination(&a, &q, &b);
    // 5 * p + 12 * q, coefficient by coefficient modulo 17
    assert_eq!(r.coeffs, vec![z(5 + 192), z(10), z(15 + 108), z(20), z(25), z(30), z(35)]);
    let cp = KZG::commit_g1(&srs, &p).unwrap();
    let cq = KZG::commit_g1(&srs, &q).unwrap();
    assert_eq!(KZG::commit_g1(&srs, &r).unwrap(), cp.mul_scalar(&a).add(&cq.mul_scalar(&b)));
    let dp = KZG::commit_g2(&srs, &p).unwrap();
    let dq = KZG::commit_g2(&srs, &q).unwrap();
    assert_eq!(KZG::commit_g2(&srs, &r).unwrap(), dp.mul_scalar(&a).add(&dq.mul_scalar(&b)));
}
