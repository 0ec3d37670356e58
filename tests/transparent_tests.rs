use tess::backend::{CurvePoint, FieldElement, LagrangeField, PairingBackend, TargetGroup};
use tess::transparent::{ExpPoint, ExpTarget, TransparentBackend, Zp};

fn z(v: u64) -> Zp {
    Zp { v }
}

#[test]
fn field_arithmetic() {
    assert_eq!(z(9).add(&z(12)), z(4));
    assert_eq!(z(3).sub(&z(5)), z(15));
    assert_eq!(z(0).neg(), z(0));
    assert_eq!(z(4).neg(), z(13));
    assert_eq!(z(5).mul(&z(7)), z(1));
    assert_eq!(Zp::from_u64(40), z(6));
    assert_eq!(z(35).add(&z(0)), z(1));
    assert!(z(34).is_zero());
    assert!(!z(1).is_zero());
}

#[test]
fn every_nonzero_element_is_invertible() {
    assert_eq!(z(0).inverse(), None);
    assert_eq!(z(17).inverse(), None);
    for a in 1..17u64 {
        let inv = z(a).inverse().unwrap();
        assert_eq!(z(a).mul(&inv), z(1), "a={}", a);
    }
    assert_eq!(z(2).inverse(), Some(z(9)));
}

#[test]
fn root_of_unity_has_order_sixteen() {
    let w = Zp::two_adic_root_of_unity();
    assert_eq!(Zp::two_adicity(), 4);
    let mut x = z(1);
    for j in 1..=16 {
        x = x.mul(&w);
        assert_eq!(x == z(1), j == 16, "j={}", j);
    }
}

#[test]
fn groups_and_pairing() {
    let g = ExpPoint::generator();
    let a = g.mul_scalar(&z(5));
    let b = g.mul_scalar(&z(7));
    assert_eq!(a.add(&b), g.mul_scalar(&z(12)));
    assert_eq!(a.sub(&b), g.mul_scalar(&z(15)));
    assert_eq!(ExpPoint::identity().add(&a), a);
    // bilinearity: e(5g, 7h) = e(g, h)^35
    let e = TransparentBackend::pairing(&a, &b);
    assert_eq!(e, ExpTarget { log: z(1) });
    let base = TransparentBackend::pairing(&g, &g);
    assert_eq!(base, ExpTarget { log: z(1) });
    assert_eq!(ExpTarget::identity().combine(&e), e);
    assert_eq!(e.combine(&e), ExpTarget { log: z(2) });
}
