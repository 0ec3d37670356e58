use rayon::iter::{IntoParallelRefIterator, ParallelIterator};
use vstd::arithmetic::div_mod::lemma_mod_twice;
use vstd::arithmetic::power::pow;
use vstd::prelude::*;

use crate::backend::{CurvePoint, FieldElement, PairingBackend, TargetGroup};
use crate::errors::BackendError;
use crate::poly::{
    DensePolynomial, lin_comb, reduce, coef, eval_upto, lemma_canonical_mod, lemma_eval_support, lemma_mod_mul_add,
    lemma_pow_mod_step, poly_eval, support_len, vals,
};

verus! {

/// The KZG polynomial-commitment engine.
#[derive(Debug)]
pub struct KZG;

/// Structured reference string: `g^(tau^i)` and `h^(tau^i)` for `i = 0..=d`,
/// the pairing of the generators, per-degree Lagrange-commitment placeholders
/// and the vanishing-polynomial commitment `h^(tau^d) - h`.
#[derive(Debug)]
pub struct SRS<B: PairingBackend> {
    pub powers_of_g: Vec<B::G1>,
    pub powers_of_h: Vec<B::G2>,
    pub e_gh: B::Target,
    pub lagrange_commitments: Vec<B::G1>,
    pub vanishing_poly_g2: B::G2,
}

/// Relies on rayon's `par_iter().map(..).collect()` into a `Vec`: the closure
/// is applied to every element and the results keep the input order.
#[verifier::external_body]
fn par_scale<S: FieldElement, G: CurvePoint<S>>(base: &G, scalars: &Vec<S>) -> (r: Vec<G>)
    ensures
        r@.len() == scalars@.len(),
        forall|i: int|
            0 <= i < r@.len() ==> #[trigger] r@[i].dlog() == (base.dlog() * scalars@[i].val())
                % S::modulus(),
{
    scalars.par_iter().map(|s| base.mul_scalar(s)).collect()
}

/// Message of the error for a degree bound below one.
pub const DEGREE_BELOW_ONE: &'static str = "degree must be >= 1";

/// Message of the error for a polynomial beyond the parameters' degree.
pub const DEGREE_TOO_LARGE: &'static str = "polynomial degree too large";

/// Message of `SRS::new` for a degree bound below one.
pub const SRS_SETUP_FAILED: &'static str = "SRS setup failed: Math(\"degree must be >= 1\")";

/// Order of the groups of backend `B`.
pub open spec fn order<B: PairingBackend>() -> int {
    <B::Scalar as FieldElement>::modulus()
}

/// Commitment is linear: when the coefficients of `r` are those of `a*p + b*q`
/// (modulo the group order), the commitment to `r` is `a` times the commitment
/// to `p` plus `b` times the commitment to `q`, in either group.
pub proof fn lemma_commit_linear(p: Seq<int>, q: Seq<int>, r: Seq<int>, a: int, b: int, tau: int, m: int)
    requires
        m > 0,
        forall|i: int| 0 <= i < r.len() ==> #[trigger] (r[i] % m) == (a * coef(p, i) + b * coef(q, i)) % m,
        p.len() <= r.len(),
        q.len() <= r.len(),
    ensures
        commitment_log(r, tau, m) == (a * commitment_log(p, tau, m) + b * commitment_log(q, tau, m)) % m,
{
    lemma_lin_upto(p, q, r, a, b, tau, m, r.len());
    crate::poly::lemma_eval_past_end(p, tau, r.len());
    crate::poly::lemma_eval_past_end(q, tau, r.len());
    let ep = poly_eval(p, tau);
    let eq = poly_eval(q, tau);
    vstd::arithmetic::div_mod::lemma_mul_mod_noop_right(a, ep, m);
    vstd::arithmetic::div_mod::lemma_mul_mod_noop_right(b, eq, m);
    vstd::arithmetic::div_mod::lemma_add_mod_noop(a * ep, b * eq, m);
    vstd::arithmetic::div_mod::lemma_add_mod_noop(a * (ep % m), b * (eq % m), m);
}

pub proof fn lemma_lin_upto(p: Seq<int>, q: Seq<int>, r: Seq<int>, a: int, b: int, tau: int, m: int, k: nat)
    requires
        m > 0,
        k <= r.len(),
        forall|i: int| 0 <= i < r.len() ==> #[trigger] (r[i] % m) == (a * coef(p, i) + b * coef(q, i)) % m,
    ensures
        eval_upto(r, tau, k) % m == (a * eval_upto(p, tau, k) + b * eval_upto(q, tau, k)) % m,
    decreases k,
{
    if k > 0 {
        let j = (k - 1) as nat;
        lemma_lin_upto(p, q, r, a, b, tau, m, j);
        let x = pow(tau, j);
        let er = eval_upto(r, tau, j);
        let ep = eval_upto(p, tau, j);
        let eq = eval_upto(q, tau, j);
        let rj = coef(r, j as int);
        let lj = a * coef(p, j as int) + b * coef(q, j as int);
        assert(rj % m == lj % m);
        // (er + rj x) % m == ((er % m) + (rj % m) x % m) % m
        lemma_mod_mul_add(er, rj, x, m);
        lemma_mod_mul_add(a * ep + b * eq, lj, x, m);
        lemma_distribute(a, b, ep, eq, coef(p, j as int), coef(q, j as int), x);
    }
}

/// Commitment is linear: the commitment to `a * p + b * q` (as
/// `DensePolynomial::linear_combination` builds it) is `a` times the
/// commitment to `p` plus `b` times the commitment to `q`, as `mul_scalar`
/// and `add` compute them in either group.
pub proof fn lemma_commit_combination(p: Seq<int>, q: Seq<int>, a: int, b: int, tau: int, m: int)
    requires
        m > 0,
    ensures
        commitment_log(reduce(lin_comb(p, a, q, b), m), tau, m) == ((commitment_log(p, tau, m) * a)
            % m + (commitment_log(q, tau, m) * b) % m) % m,
{
    let r = reduce(lin_comb(p, a, q, b), m);
    assert forall|i: int| 0 <= i < r.len() implies #[trigger] (r[i] % m) == (a * coef(p, i) + b
        * coef(q, i)) % m by {
        lemma_mod_twice(a * coef(p, i) + b * coef(q, i), m);
    }
    lemma_commit_linear(p, q, r, a, b, tau, m);
    let cp = commitment_log(p, tau, m);
    let cq = commitment_log(q, tau, m);
    vstd::arithmetic::mul::lemma_mul_is_commutative(cp, a);
    vstd::arithmetic::mul::lemma_mul_is_commutative(cq, b);
    vstd::arithmetic::div_mod::lemma_add_mod_noop(a * cp, b * cq, m);
}

proof fn lemma_distribute(a: int, b: int, ep: int, eq: int, pj: int, qj: int, x: int)
    ensures
        (a * ep + b * eq) + (a * pj + b * qj) * x == a * (ep + pj * x) + b * (eq + qj * x),
{
    vstd::arithmetic::mul::lemma_mul_is_distributive_add_other_way(x, a * pj, b * qj);
    vstd::arithmetic::mul::lemma_mul_is_distributive_add(a, ep, pj * x);
    vstd::arithmetic::mul::lemma_mul_is_distributive_add(b, eq, qj * x);
    vstd::arithmetic::mul::lemma_mul_is_associative(a, pj, x);
    vstd::arithmetic::mul::lemma_mul_is_associative(b, qj, x);
}

/// Discrete log of a commitment to coefficients `c` under secret `tau`.
pub open spec fn commitment_log(c: Seq<int>, tau: int, m: int) -> int {
    poly_eval(c, tau) % m
}

/// A copy of `v`, element by element.
pub fn copy_vec<T: Copy>(v: &Vec<T>) -> (r: Vec<T>)
    ensures
        r@ == v@,
{
    let mut out: Vec<T> = Vec::new();
    let mut i: usize = 0;
    while i < v.len()
        invariant
            i <= v@.len(),
            out@ == v@.subrange(0, i as int),
        decreases v@.len() - i,
    {
        out.push(v[i]);
        proof {
            assert(v@.subrange(0, i + 1) =~= v@.subrange(0, i as int).push(v@[i as int]));
        }
        i = i + 1;
    }
    proof {
        assert(v@.subrange(0, v@.len() as int) =~= v@);
    }
    out
}

impl<B: PairingBackend> Clone for SRS<B> {
    fn clone(&self) -> (r: Self)
        ensures
            r.same_as(self),
    {
        self.duplicate()
    }
}

impl<B: PairingBackend> SRS<B> {
    /// Whether two parameter sets hold the same elements.
    pub open spec fn same_as(&self, o: &SRS<B>) -> bool {
        &&& self.powers_of_g@ == o.powers_of_g@
        &&& self.powers_of_h@ == o.powers_of_h@
        &&& self.e_gh == o.e_gh
        &&& self.lagrange_commitments@ == o.lagrange_commitments@
        &&& self.vanishing_poly_g2 == o.vanishing_poly_g2
    }

    /// A copy of the parameters.
    pub fn duplicate(&self) -> (r: Self)
        ensures
            r.same_as(self),
            self.wf() ==> r.wf(),
            r.tau() == self.tau(),
            r.max_degree() == self.max_degree(),
    {
        SRS {
            powers_of_g: copy_vec(&self.powers_of_g),
            powers_of_h: copy_vec(&self.powers_of_h),
            e_gh: self.e_gh,
            lagrange_commitments: copy_vec(&self.lagrange_commitments),
            vanishing_poly_g2: self.vanishing_poly_g2,
        }
    }

    /// The secret point, as seen through `g^tau`.
    pub open spec fn tau(&self) -> int {
        self.powers_of_g@[1].dlog()
    }

    /// The largest degree the parameters support.
    pub open spec fn max_degree(&self) -> nat {
        (self.powers_of_g@.len() - 1) as nat
    }

    pub open spec fn wf(&self) -> bool {
        let m = order::<B>();
        let d = self.max_degree();
        &&& self.powers_of_g@.len() >= 2
        &&& self.powers_of_h@.len() == self.powers_of_g@.len()
        &&& forall|i: int|
            0 <= i < self.powers_of_g@.len() ==> #[trigger] self.powers_of_g@[i].dlog() == pow(
                self.tau(),
                i as nat,
            ) % m
        &&& forall|i: int|
            0 <= i < self.powers_of_h@.len() ==> #[trigger] self.powers_of_h@[i].dlog() == pow(
                self.tau(),
                i as nat,
            ) % m
        &&& self.e_gh.tlog() == 1
        &&& self.lagrange_commitments@.len() == d
        &&& forall|i: int|
            0 <= i < d ==> #[trigger] self.lagrange_commitments@[i].dlog() == 1
        &&& self.vanishing_poly_g2.dlog() == (pow(self.tau(), d) - 1) % m
    }

    /// Builds the parameters for committing polynomials of degree up to `parties`.
    pub fn new(tau: &B::Scalar, parties: usize) -> (r: Result<Self, String>)
        requires
            parties < usize::MAX,
        ensures
            r is Err <==> parties < 1,
            r is Err ==> r->Err_0@ == SRS_SETUP_FAILED@,
            r is Ok ==> r->Ok_0.wf() && r->Ok_0.max_degree() == parties && r->Ok_0.tau()
                == tau.val(),
    {
        match setup_powers_bls::<B>(parties, tau) {
            Ok(srs) => Ok(srs),
            Err(_) => Err(SRS_SETUP_FAILED.to_owned()),
        }
    }
}

/// Computes the parameters for secret `tau` and degree bound `max_degree`.
pub fn setup_powers_bls<B: PairingBackend>(max_degree: usize, tau: &B::Scalar) -> (r: Result<
    SRS<B>,
    BackendError,
>)
    requires
        max_degree < usize::MAX,
    ensures
        r is Err <==> max_degree < 1,
        r is Err ==> r->Err_0 == BackendError::Math(DEGREE_BELOW_ONE),
        r is Ok ==> r->Ok_0.wf() && r->Ok_0.max_degree() == max_degree && r->Ok_0.tau()
            == tau.val(),
{
    if max_degree < 1 {
        return Err(BackendError::Math(DEGREE_BELOW_ONE));
    }
    let ghost m = order::<B>();
    let ghost t = tau.val();
    proof {
        <B::Scalar as FieldElement>::lemma_canonical(*tau);
    }
    let g = <B::G1 as CurvePoint<B::Scalar>>::generator();
    let h = <B::G2 as CurvePoint<B::Scalar>>::generator();

    let mut powers_of_tau: Vec<B::Scalar> = Vec::new();
    powers_of_tau.push(<B::Scalar as FieldElement>::one());
    let mut cur = *tau;
    proof {
        reveal(pow);
        assert(pow(t, 0) == 1);
        assert(pow(t, 1) == t * pow(t, 0));
        lemma_canonical_mod(1, m);
        lemma_canonical_mod(t, m);
    }
    let mut i: usize = 0;
    while i < max_degree
        invariant
            m == order::<B>(),
            1 < m,
            0 <= t < m,
            t == tau.val(),
            i <= max_degree,
            powers_of_tau@.len() == i + 1,
            forall|j: int| 0 <= j <= i ==> #[trigger] powers_of_tau@[j].val() == pow(t, j as nat) % m,
            cur.val() == pow(t, (i + 1) as nat) % m,
        decreases max_degree - i,
    {
        powers_of_tau.push(cur);
        proof {
            lemma_pow_mod_step(t, (i + 1) as nat, m);
        }
        cur = cur.mul(tau);
        i = i + 1;
    }

    // each power maps to its group element independently of the others
    let powers_of_g: Vec<B::G1> = par_scale(&g, &powers_of_tau);
    let powers_of_h: Vec<B::G2> = par_scale(&h, &powers_of_tau);
    proof {
        assert forall|k: int| 0 <= k <= max_degree implies #[trigger] powers_of_g@[k].dlog() == pow(t, k as nat) % m by {
            lemma_mod_twice(pow(t, k as nat), m);
            assert(1 * powers_of_tau@[k].val() == powers_of_tau@[k].val());
        }
        assert forall|k: int| 0 <= k <= max_degree implies #[trigger] powers_of_h@[k].dlog() == pow(t, k as nat) % m by {
            lemma_mod_twice(pow(t, k as nat), m);
            assert(1 * powers_of_tau@[k].val() == powers_of_tau@[k].val());
        }
    }

    let e_gh = B::pairing(&g, &h);
    proof {
        lemma_canonical_mod(1, m);
    }

    let mut lagrange_commitments: Vec<B::G1> = Vec::new();
    let mut k: usize = 0;
    while k < max_degree
        invariant
            g.dlog() == 1,
            k <= max_degree,
            lagrange_commitments@.len() == k,
            forall|q: int| 0 <= q < k ==> #[trigger] lagrange_commitments@[q].dlog() == 1,
        decreases max_degree - k,
    {
        lagrange_commitments.push(g);
        k = k + 1;
    }

    let h_tau_n = h.mul_scalar(&powers_of_tau[max_degree]);
    let vanishing_poly_g2 = h_tau_n.sub(&h);
    proof {
        lemma_mod_twice(pow(t, max_degree as nat), m);
        vstd::arithmetic::div_mod::lemma_sub_mod_noop(pow(t, max_degree as nat), 1, m);
        lemma_canonical_mod(1, m);
        assert(powers_of_g@[1].dlog() == pow(t, 1) % m);
        reveal(pow);
        assert(pow(t, 1) == t * pow(t, 0));
        lemma_canonical_mod(t, m);
    }
    Ok(SRS { powers_of_g, powers_of_h, e_gh, lagrange_commitments, vanishing_poly_g2 })
}

impl KZG {
    /// Builds parameters supporting degree `max_degree` from secret `tau`.
    pub fn setup<B: PairingBackend>(max_degree: usize, tau: &B::Scalar) -> (r: Result<
        SRS<B>,
        BackendError,
    >)
        requires
            max_degree < usize::MAX,
        ensures
            r is Err <==> max_degree < 1,
            r is Err ==> r->Err_0 == BackendError::Math(DEGREE_BELOW_ONE),
            r is Ok ==> r->Ok_0.wf() && r->Ok_0.max_degree() == max_degree && r->Ok_0.tau()
                == tau.val(),
    {
        setup_powers_bls::<B>(max_degree, tau)
    }

    /// Commits `polynomial` in the first group: `sum_i c_i * g^(tau^i)`.
    pub fn commit_g1<B: PairingBackend>(params: &SRS<B>, polynomial: &DensePolynomial<B::Scalar>) -> (r: Result<
        B::G1,
        BackendError,
    >)
        requires
            params.wf(),
        ensures
            r is Err <==> support_len(polynomial@) > params.powers_of_g@.len(),
            r is Err ==> r->Err_0 == BackendError::Math(DEGREE_TOO_LARGE),
            r is Ok ==> r->Ok_0.dlog() == commitment_log(polynomial@, params.tau(), order::<B>()),
    {
        let ghost m = order::<B>();
        let ghost c = polynomial@;
        let ghost t = params.tau();
        proof {
            if c.len() > 0 {
                crate::poly::lemma_degree_upto(c, c.len());
            }
        }
        let len = if polynomial.coeffs.len() == 0 {
            0
        } else {
            polynomial.degree() + 1
        };
        if len > params.powers_of_g.len() {
            return Err(BackendError::Math(DEGREE_TOO_LARGE));
        }
        proof {
            lemma_eval_support(c, t);
        }
        let mut acc = <B::G1 as CurvePoint<B::Scalar>>::identity();
        proof {
            <B::G1 as CurvePoint<B::Scalar>>::lemma_canonical(acc);
        }
        let mut i: usize = 0;
        while i < len
            invariant
                m == order::<B>(),
                0 < m,
                params.wf(),
                t == params.tau(),
                c == polynomial@,
                c.len() == polynomial.coeffs@.len(),
                len <= c.len(),
                len <= params.powers_of_g@.len(),
                i <= len,
                acc.dlog() == eval_upto(c, t, i as nat) % m,
            decreases len - i,
        {
            let term = params.powers_of_g[i].mul_scalar(&polynomial.coeffs[i]);
            proof {
                assert(coef(c, i as int) == polynomial.coeffs@[i as int].val());
                lemma_mod_mul_add(eval_upto(c, t, i as nat), pow(t, i as nat), coef(c, i as int), m);
                vstd::arithmetic::mul::lemma_mul_is_commutative(pow(t, i as nat), coef(c, i as int));
            }
            acc = acc.add(&term);
            i = i + 1;
        }
        Ok(acc)
    }

    /// Commits `polynomial` in the second group: `sum_i c_i * h^(tau^i)`.
    pub fn commit_g2<B: PairingBackend>(params: &SRS<B>, polynomial: &DensePolynomial<B::Scalar>) -> (r: Result<
        B::G2,
        BackendError,
    >)
        requires
            params.wf(),
        ensures
            r is Err <==> support_len(polynomial@) > params.powers_of_h@.len(),
            r is Err ==> r->Err_0 == BackendError::Math(DEGREE_TOO_LARGE),
            r is Ok ==> r->Ok_0.dlog() == commitment_log(polynomial@, params.tau(), order::<B>()),
    {
        let ghost m = order::<B>();
        let ghost c = polynomial@;
        let ghost t = params.tau();
        proof {
            if c.len() > 0 {
                crate::poly::lemma_degree_upto(c, c.len());
            }
        }
        let len = if polynomial.coeffs.len() == 0 {
            0
        } else {
            polynomial.degree() + 1
        };
        if len > params.powers_of_h.len() {
            return Err(BackendError::Math(DEGREE_TOO_LARGE));
        }
        proof {
            lemma_eval_support(c, t);
        }
        let mut acc = <B::G2 as CurvePoint<B::Scalar>>::identity();
        proof {
            <B::G2 as CurvePoint<B::Scalar>>::lemma_canonical(acc);
        }
        let mut i: usize = 0;
        while i < len
            invariant
                m == order::<B>(),
                0 < m,
                params.wf(),
                t == params.tau(),
                c == polynomial@,
                c.len() == polynomial.coeffs@.len(),
                len <= c.len(),
                len <= params.powers_of_h@.len(),
                params.powers_of_h@.len() == params.powers_of_g@.len(),
                i <= len,
                acc.dlog() == eval_upto(c, t, i as nat) % m,
            decreases len - i,
        {
            let term = params.powers_of_h[i].mul_scalar(&polynomial.coeffs[i]);
            proof {
                assert(coef(c, i as int) == polynomial.coeffs@[i as int].val());
                lemma_mod_mul_add(eval_upto(c, t, i as nat), pow(t, i as nat), coef(c, i as int), m);
                vstd::arithmetic::mul::lemma_mul_is_commutative(pow(t, i as nat), coef(c, i as int));
            }
            acc = acc.add(&term);
            i = i + 1;
        }
        Ok(acc)
    }
}

} // verus!
