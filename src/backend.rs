use vstd::arithmetic::power::pow;
use vstd::arithmetic::power2::pow2;
use vstd::prelude::*;

verus! {

/// A prime field of scalars.  A value is modelled by its canonical
/// representative `val()` in `[0, modulus())`.
pub trait FieldElement: Sized + Copy + Send + Sync {
    /// The field's characteristic.
    spec fn modulus() -> int;

    /// Canonical representative of the element.
    spec fn val(self) -> int;

    /// Every backend field has at least two elements and canonical values.
    proof fn lemma_canonical(x: Self)
        ensures
            1 < Self::modulus(),
            0 <= x.val() < Self::modulus(),
    ;

    proof fn lemma_modulus()
        ensures
            1 < Self::modulus(),
    ;

    /// Every nonzero residue has a multiplicative inverse.
    proof fn lemma_invertible(a: int)
        requires
            0 < a < Self::modulus(),
        ensures
            exists|b: int| 0 <= b < Self::modulus() && #[trigger] ((a * b) % Self::modulus()) == 1,
    ;

    fn zero() -> (r: Self)
        ensures
            r.val() == 0,
    ;

    fn one() -> (r: Self)
        ensures
            r.val() == 1,
    ;

    fn from_u64(n: u64) -> (r: Self)
        ensures
            r.val() == n as int % Self::modulus(),
    ;

    fn add(&self, o: &Self) -> (r: Self)
        ensures
            r.val() == (self.val() + o.val()) % Self::modulus(),
    ;

    fn sub(&self, o: &Self) -> (r: Self)
        ensures
            r.val() == (self.val() - o.val()) % Self::modulus(),
    ;

    fn neg(&self) -> (r: Self)
        ensures
            r.val() == (-self.val()) % Self::modulus(),
    ;

    fn mul(&self, o: &Self) -> (r: Self)
        ensures
            r.val() == (self.val() * o.val()) % Self::modulus(),
    ;

    /// Multiplicative inverse; `None` exactly for zero.
    fn inverse(&self) -> (r: Option<Self>)
        ensures
            r is None <==> self.val() == 0,
            r is Some ==> (self.val() * r->Some_0.val()) % Self::modulus() == 1,
    ;

    fn is_zero(&self) -> (r: bool)
        ensures
            r <==> self.val() == 0,
    ;
}

/// A field with a root of unity of order `2^two_adicity()`, from which the
/// radix-2 evaluation domains are generated.
pub trait LagrangeField: FieldElement {
    spec fn spec_two_adicity() -> nat;

    fn two_adicity() -> (r: u32)
        ensures
            r == Self::spec_two_adicity(),
            r < 64,
    ;

    /// The value of `two_adic_root_of_unity()`.
    spec fn spec_root() -> int;

    /// The root has order exactly `2^two_adicity()`; that subgroup of the
    /// units has fewer elements than the field.
    proof fn lemma_root_of_unity()
        ensures
            Self::spec_two_adicity() < 64,
            pow2(Self::spec_two_adicity()) < Self::modulus(),
            pow(Self::spec_root(), pow2(Self::spec_two_adicity())) % Self::modulus() == 1,
            forall|j: nat|
                0 < j < pow2(Self::spec_two_adicity()) ==> #[trigger] pow(Self::spec_root(), j)
                    % Self::modulus() != 1,
    ;

    fn two_adic_root_of_unity() -> (r: Self)
        ensures
            r.val() == Self::spec_root(),
    ;
}

/// An additive group of prime order, the order being the modulus of the scalar
/// field `S`.  An element is modelled by its discrete logarithm with respect to
/// the fixed generator.
pub trait CurvePoint<S: FieldElement>: Sized + Copy + Send + Sync {
    /// Discrete logarithm of the element with respect to `generator()`.
    spec fn dlog(self) -> int;

    proof fn lemma_canonical(p: Self)
        ensures
            0 <= p.dlog() < S::modulus(),
    ;

    fn identity() -> (r: Self)
        ensures
            r.dlog() == 0,
    ;

    fn generator() -> (r: Self)
        ensures
            r.dlog() == 1,
    ;

    fn add(&self, o: &Self) -> (r: Self)
        ensures
            r.dlog() == (self.dlog() + o.dlog()) % S::modulus(),
    ;

    fn sub(&self, o: &Self) -> (r: Self)
        ensures
            r.dlog() == (self.dlog() - o.dlog()) % S::modulus(),
    ;

    fn mul_scalar(&self, s: &S) -> (r: Self)
        ensures
            r.dlog() == (self.dlog() * s.val()) % S::modulus(),
    ;
}

/// The multiplicative target group of a pairing, of the same prime order.
/// An element is modelled by its discrete logarithm with respect to the
/// pairing of the two generators.
pub trait TargetGroup<S: FieldElement>: Sized + Copy {
    spec fn tlog(self) -> int;

    /// Canonical byte encoding of the element.
    spec fn repr(self) -> Seq<u8>;

    proof fn lemma_canonical(t: Self)
        ensures
            0 <= t.tlog() < S::modulus(),
    ;

    fn identity() -> (r: Self)
        ensures
            r.tlog() == 0,
    ;

    /// Group operation (multiplication of target elements).
    fn combine(&self, o: &Self) -> (r: Self)
        ensures
            r.tlog() == (self.tlog() + o.tlog()) % S::modulus(),
    ;

    /// Equality of target elements.
    fn equals(&self, o: &Self) -> (r: bool)
        ensures
            r == (self.tlog() == o.tlog()),
    ;

    fn to_repr(&self) -> (r: Vec<u8>)
        ensures
            r@ == self.repr(),
    ;
}

/// The algebraic capability set that every protocol routine is written against:
/// a scalar field, two source groups and a bilinear pairing into a target group.
pub trait PairingBackend {
    type Scalar: LagrangeField;

    type G1: CurvePoint<Self::Scalar>;

    type G2: CurvePoint<Self::Scalar>;

    type Target: TargetGroup<Self::Scalar>;

    /// The bilinear pairing: `e(a·g, b·h) = e(g, h)^(ab)`.
    fn pairing(p: &Self::G1, q: &Self::G2) -> (r: Self::Target)
        ensures
            r.tlog() == (p.dlog() * q.dlog()) % <Self::Scalar as FieldElement>::modulus(),
    ;
}

} // verus!
