use vstd::arithmetic::power::pow;
use vstd::arithmetic::power2::pow2;
use vstd::arithmetic::div_mod::lemma_small_mod;
use vstd::prelude::*;

use crate::backend::{CurvePoint, FieldElement, LagrangeField, PairingBackend, TargetGroup};
use crate::sym_enc::{le_bytes, u64_le_bytes};

verus! {

/// Order of the transparent groups: the Fermat prime `2^4 + 1`.
pub const ORDER: u64 = 17;

/// The inverse of each nonzero residue modulo 17.
pub open spec fn inv_table(a: int) -> int {
    if a == 1 { 1 }
    else if a == 2 { 9 }
    else if a == 3 { 6 }
    else if a == 4 { 13 }
    else if a == 5 { 7 }
    else if a == 6 { 3 }
    else if a == 7 { 5 }
    else if a == 8 { 15 }
    else if a == 9 { 2 }
    else if a == 10 { 12 }
    else if a == 11 { 14 }
    else if a == 12 { 10 }
    else if a == 13 { 4 }
    else if a == 14 { 11 }
    else if a == 15 { 8 }
    else { 16 }
}

proof fn lemma_inv_table(a: int)
    requires
        0 < a < 17,
    ensures
        0 < inv_table(a) < 17,
        (a * inv_table(a)) % 17 == 1,
{
}

/// `3^j mod 17`, reduced at every step.
pub open spec fn pow3_mod(j: nat) -> int
    decreases j,
{
    if j == 0 {
        1
    } else {
        (3 * pow3_mod((j - 1) as nat)) % 17
    }
}

proof fn lemma_pow3_mod(j: nat)
    ensures
        pow(3, j) % 17 == pow3_mod(j),
    decreases j,
{
    reveal(pow);
    if j > 0 {
        lemma_pow3_mod((j - 1) as nat);
        vstd::arithmetic::div_mod::lemma_mul_mod_noop_right(3, pow(3, (j - 1) as nat), 17);
    }
}

/// 3 has order exactly 16 modulo 17.
proof fn lemma_three_order(j: nat)
    requires
        0 < j <= 16,
    ensures
        j < 16 ==> pow(3, j) % 17 != 1,
        j == 16 ==> pow(3, j) % 17 == 1,
{
    lemma_pow3_mod(j);
    assert(pow3_mod(0) == 1);
    assert(pow3_mod(1) == 3);
    assert(pow3_mod(2) == 9);
    assert(pow3_mod(3) == 10);
    assert(pow3_mod(4) == 13);
    assert(pow3_mod(5) == 5);
    assert(pow3_mod(6) == 15);
    assert(pow3_mod(7) == 11);
    assert(pow3_mod(8) == 16);
    assert(pow3_mod(9) == 14);
    assert(pow3_mod(10) == 8);
    assert(pow3_mod(11) == 7);
    assert(pow3_mod(12) == 4);
    assert(pow3_mod(13) == 12);
    assert(pow3_mod(14) == 2);
    assert(pow3_mod(15) == 6);
    assert(pow3_mod(16) == 1);
    if j == 1 {
    } else if j == 2 {
    } else if j == 3 {
    } else if j == 4 {
    } else if j == 5 {
    } else if j == 6 {
    } else if j == 7 {
    } else if j == 8 {
    } else if j == 9 {
    } else if j == 10 {
    } else if j == 11 {
    } else if j == 12 {
    } else if j == 13 {
    } else if j == 14 {
    } else if j == 15 {
    } else {
    }
}

/// An element of the prime field `Z_17`, stored as any `u64` and read modulo 17.
#[derive(Clone, Copy, Debug, PartialEq, Eq)]
pub struct Zp {
    pub v: u64,
}

impl Zp {
    fn reduced(&self) -> (r: u64)
        ensures
            r as int == self.val(),
            r < ORDER,
    {
        self.v % ORDER
    }
}

impl FieldElement for Zp {
    open spec fn modulus() -> int {
        ORDER as int
    }

    open spec fn val(self) -> int {
        (self.v % ORDER) as int
    }

    proof fn lemma_canonical(x: Self) {
    }

    proof fn lemma_modulus() {
    }

    proof fn lemma_invertible(a: int) {
        lemma_inv_table(a);
        let b = inv_table(a);
        assert(0 <= b < 17 && (a * b) % 17 == 1);
    }

    fn zero() -> (r: Self) {
        Zp { v: 0 }
    }

    fn one() -> (r: Self) {
        Zp { v: 1 }
    }

    fn from_u64(n: u64) -> (r: Self) {
        Zp { v: n % ORDER }
    }

    fn add(&self, o: &Self) -> (r: Self) {
        let a = self.reduced();
        let b = o.reduced();
        Zp { v: (a + b) % ORDER }
    }

    fn sub(&self, o: &Self) -> (r: Self) {
        let a = self.reduced();
        let b = o.reduced();
        proof {
            vstd::arithmetic::div_mod::lemma_mod_add_multiples_vanish(a - b, 17);
        }
        Zp { v: (a + ORDER - b) % ORDER }
    }

    fn neg(&self) -> (r: Self) {
        let a = self.reduced();
        proof {
            vstd::arithmetic::div_mod::lemma_mod_add_multiples_vanish(-a, 17);
        }
        Zp { v: (ORDER - a) % ORDER }
    }

    fn mul(&self, o: &Self) -> (r: Self) {
        let a = self.reduced();
        let b = o.reduced();
        assert(a * b < 17 * 17) by (nonlinear_arith)
            requires
                a < 17,
                b < 17,
        ;
        Zp { v: (a * b) % ORDER }
    }

    fn inverse(&self) -> (r: Option<Self>) {
        let a = self.reduced();
        if a == 0 {
            return None;
        }
        proof {
            lemma_inv_table(a as int);
        }
        let mut x: u64 = 1;
        while x < ORDER
            invariant
                0 < a < 17,
                a as int == self.val(),
                1 <= x <= 17,
                forall|y: int| 1 <= y < x ==> #[trigger] ((a * y) % 17) != 1,
            decreases 17 - x,
        {
            assert(a * x < 17 * 17) by (nonlinear_arith)
                requires
                    a < 17,
                    x < 17,
            ;
            if (a * x) % ORDER == 1 {
                proof {
                    lemma_small_mod(x as nat, 17);
                    lemma_small_mod(a as nat, 17);
                }
                return Some(Zp { v: x });
            }
            x = x + 1;
        }
        proof {
            let y = inv_table(a as int);
            assert((a * y) % 17 == 1);
        }
        None
    }

    fn is_zero(&self) -> (r: bool) {
        self.reduced() == 0
    }
}

impl LagrangeField for Zp {
    open spec fn spec_two_adicity() -> nat {
        4
    }

    fn two_adicity() -> (r: u32) {
        4
    }

    open spec fn spec_root() -> int {
        3
    }

    proof fn lemma_root_of_unity() {
        vstd::arithmetic::power2::lemma2_to64();
        lemma_three_order(16);
        assert forall|j: nat| 0 < j < pow2(4) implies #[trigger] pow(3, j) % 17 != 1 by {
            lemma_three_order(j);
        }
    }

    fn two_adic_root_of_unity() -> (r: Self) {
        Zp { v: 3 }
    }
}

/// A group element of the transparent backend, carried as its discrete log.
#[derive(Clone, Copy, Debug, PartialEq, Eq)]
pub struct ExpPoint {
    pub log: Zp,
}

impl CurvePoint<Zp> for ExpPoint {
    open spec fn dlog(self) -> int {
        self.log.val()
    }

    proof fn lemma_canonical(p: Self) {
    }

    fn identity() -> (r: Self) {
        ExpPoint { log: Zp::zero() }
    }

    fn generator() -> (r: Self) {
        ExpPoint { log: Zp::one() }
    }

    fn add(&self, o: &Self) -> (r: Self) {
        ExpPoint { log: self.log.add(&o.log) }
    }

    fn sub(&self, o: &Self) -> (r: Self) {
        ExpPoint { log: self.log.sub(&o.log) }
    }

    fn mul_scalar(&self, s: &Zp) -> (r: Self) {
        ExpPoint { log: self.log.mul(s) }
    }
}

/// A target-group element of the transparent backend, carried as its discrete log.
#[derive(Clone, Copy, Debug, PartialEq, Eq)]
pub struct ExpTarget {
    pub log: Zp,
}

impl TargetGroup<Zp> for ExpTarget {
    open spec fn tlog(self) -> int {
        self.log.val()
    }

    open spec fn repr(self) -> Seq<u8> {
        le_bytes(self.log.val() as nat, 8)
    }

    proof fn lemma_canonical(t: Self) {
    }

    fn identity() -> (r: Self) {
        ExpTarget { log: Zp::zero() }
    }

    fn combine(&self, o: &Self) -> (r: Self) {
        ExpTarget { log: self.log.add(&o.log) }
    }

    fn equals(&self, o: &Self) -> (r: bool) {
        self.log.reduced() == o.log.reduced()
    }

    fn to_repr(&self) -> (r: Vec<u8>) {
        u64_le_bytes(self.log.reduced())
    }
}

/// A pairing backend in which every element is carried by its discrete log:
/// it has the algebra of a pairing group of order 17 and none of the
/// hardness, and serves to exercise the protocol code.
#[derive(Clone, Copy, Debug)]
pub struct TransparentBackend;

impl PairingBackend for TransparentBackend {
    type Scalar = Zp;

    type G1 = ExpPoint;

    type G2 = ExpPoint;

    type Target = ExpTarget;

    fn pairing(p: &ExpPoint, q: &ExpPoint) -> (r: ExpTarget) {
        ExpTarget { log: p.log.mul(&q.log) }
    }
}

} // verus!
