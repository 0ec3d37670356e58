use tess::backend::{FieldElement, LagrangeField};
use tess::errors::BackendError;
use tess::lagrange::{domain_generator, interp_mostly_zero, lagrange_poly, lagrange_polys};
use tess::transparent::Zp;

fn z(v: u64) -> Zp {
    Zp { v: v % 17 }
}

fn eval(c: &[Zp], x: Zp) -> Zp {
    let mut acc = z(0);
    for coef in c.iter().rev() {
        acc = acc.mul(&x).add(coef);
    }
    acc
}

fn pow(x: Zp, e: usize) -> Zp {
    let mut acc = z(1);
    for _ in 0..e {
        acc = acc.mul(&x);
    }
    acc
}

#[test]
fn domain_generators() {
    // the root 3 has order 16; the domain of size 4 is generated by 3^4 = 13
    assert_eq!(Zp::two_adic_root_of_unity(), z(3));
    assert_eq!(domain_generator::<Zp>(16), Some(z(3)));
    assert_eq!(domain_generator::<Zp>(4), Some(z(13)));
    assert_eq!(domain_generator::<Zp>(1), Some(z(1)));
    assert_eq!(domain_generator::<Zp>(32), None);
}

#[test]
fn lagrange_basis_is_indicator_on_domain() {
    for n in [1usize, 2, 4, 8, 16] {
        let w = domain_generator::<Zp>(n).unwrap();
        for i in 0..n {
            let l = lagrange_poly::<Zp>(n, i).unwrap();
            assert_eq!(l.coeffs.len(), n);
            for k in 0..n {
                let expected = if k == i { z(1) } else { z(0) };
                assert_eq!(eval(&l.coeffs, pow(w, k)), expected, "n={} i={} k={}", n, i, k);
            }
        }
    }
}

#[test]
fn lagrange_polys_agree_with_single() {
    for n in [2usize, 4, 16] {
        let all = lagrange_polys::<Zp>(n).unwrap();
        assert_eq!(all.len(), n);
        for (i, p) in all.iter().enumerate() {
            assert_eq!(p.coeffs, lagrange_poly::<Zp>(n, i).unwrap().coeffs);
        }
    }
}

#[test]
fn lagrange_exact_coefficients() {
    // n = 2: omega = -1, L_0 = (1 + X) / 2, L_1 = (1 - X) / 2; 1/2 = 9 mod 17
    let l0 = lagrange_poly::<Zp>(2, 0).unwrap();
    let l1 = lagrange_poly::<Zp>(2, 1).unwrap();
    assert_eq!(l0.coeffs, vec![z(9), z(9)]);
    assert_eq!(l1.coeffs, vec![z(9), z(8)]);
}

#[test]
fn lagrange_rejects_bad_domains() {
    assert_eq!(
        lagrange_poly::<Zp>(4, 4).err(),
        Some(BackendError::Math("lagrange index out of range"))
    );
    // the index is checked before the domain
    assert_eq!(
        lagrange_poly::<Zp>(6, 7).err(),
        Some(BackendError::Math("lagrange index out of range"))
    );
    assert_eq!(
        lagrange_poly::<Zp>(6, 1).err(),
        Some(BackendError::Math("domain size must be a power of two"))
    );
    assert_eq!(
        lagrange_poly::<Zp>(32, 1).err(),
        Some(BackendError::Math("invalid evaluation domain"))
    );
    assert!(lagrange_polys::<Zp>(0).is_err());
    assert!(lagrange_polys::<Zp>(12).is_err());
    assert!(lagrange_polys::<Zp>(32).is_err());
}

#[test]
fn interp_mostly_zero_values() {
    let points = [z(2), z(5), z(7), z(11)];
    let p = interp_mostly_zero(z(6), &points).unwrap();
    assert_eq!(p.coeffs.len(), 4);
    assert_eq!(eval(&p.coeffs, z(2)), z(6));
    assert_eq!(eval(&p.coeffs, z(5)), z(0));
    assert_eq!(eval(&p.coeffs, z(7)), z(0));
    assert_eq!(eval(&p.coeffs, z(11)), z(0));
}

#[test]
fn interp_mostly_zero_exact() {
    // (X - 3) * 5 / (1 - 3) = (X - 3) * 5 * 8 = 40 X - 120 = 6 X + 16 mod 17
    let p = interp_mostly_zero(z(5), &[z(1), z(3)]).unwrap();
    assert_eq!(p.coeffs, vec![z(16), z(6)]);
    let single = interp_mostly_zero(z(4), &[z(9)]).unwrap();
    assert_eq!(single.coeffs, vec![z(4)]);
}

#[test]
fn interp_mostly_zero_edge_cases() {
    assert_eq!(interp_mostly_zero(z(3), &[]).unwrap().coeffs, vec![z(1)]);
    assert_eq!(
        interp_mostly_zero(z(3), &[z(4), z(1), z(4)]).err(),
        Some(BackendError::Math("interpolation scale inversion failed"))
    );
    assert!(interp_mostly_zero(z(3), &[z(4), z(1), z(21)]).is_err());
}

#[test]
fn interp_mostly_zero_repeated_later_points() {
    // eval / ((1 - 2)(1 - 2)) * (X - 2)^2 = 5 (X^2 - 4X + 4) = 5X^2 - 20X + 20
    let p = interp_mostly_zero(z(5), &[z(1), z(2), z(2)]).unwrap();
    assert_eq!(p.coeffs, vec![z(3), z(14), z(5)]);
}

#[test]
fn interp_mostly_zero_is_linear_in_the_value() {
    let points = [z(3), z(8), z(12), z(0)];
    let base = interp_mostly_zero(z(1), &points).unwrap();
    for a in 0..17u64 {
        let scaled = interp_mostly_zero(z(a), &points).unwrap();
        let expected: Vec<Zp> = base.coeffs.iter().map(|c| c.mul(&z(a))).collect();
        assert_eq!(scaled.coeffs, expected);
    }
    assert!(interp_mostly_zero(z(0), &points).unwrap().coeffs.iter().all(|c| *c == z(0)));
}
