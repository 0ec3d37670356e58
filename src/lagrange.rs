use vstd::arithmetic::div_mod::{lemma_mul_mod_noop_left, lemma_mul_mod_noop_right};
use vstd::arithmetic::power::{lemma_pow_adds, lemma_pow_distributes, lemma_pow_mod_noop, pow};
use vstd::arithmetic::power2::pow2;
use vstd::prelude::*;

use crate::backend::{FieldElement, LagrangeField};
use crate::config::{is_pow2, is_power_of_two};
use crate::errors::BackendError;
use crate::kzg::{commitment_log, lemma_commit_linear};
use crate::poly::{
    DensePolynomial, coef, eval_upto, lemma_canonical_mod, lemma_eval_past_end, lemma_pow_mod_step,
    poly_eval, reduce, vals,
};

verus! {

/// `log_2(n)` rounded down (zero for `n <= 1`).
pub open spec fn log2(n: nat) -> nat
    decreases n,
{
    if n <= 1 {
        0
    } else {
        1 + log2(n / 2)
    }
}

/// Whether a radix-2 domain of size `n` exists in `F`.
pub open spec fn domain_ok<F: LagrangeField>(n: nat) -> bool {
    &&& is_pow2(n)
    &&& log2(n) <= F::spec_two_adicity()
}

/// Generator `omega` of the radix-2 domain of size `n`: the root of unity of
/// order `2^s` raised to `2^(s - log2 n)`.
pub open spec fn domain_gen<F: LagrangeField>(n: nat) -> int {
    pow(F::spec_root(), pow2((F::spec_two_adicity() - log2(n)) as nat)) % F::modulus()
}

/// Message of the error for a basis index outside the domain.
pub const LAGRANGE_INDEX_OUT_OF_RANGE: &'static str = "lagrange index out of range";

/// Message of the error for a domain size that is not a power of two.
pub const NOT_POWER_OF_TWO: &'static str = "domain size must be a power of two";

/// Message of the error for a domain larger than the field's 2-adic subgroup.
pub const INVALID_DOMAIN: &'static str = "invalid evaluation domain";

/// Message of the error for a non-invertible domain generator.
pub const INVALID_GENERATOR: &'static str = "invalid group generator";

/// Message of the error for a domain size that is zero in the field.
pub const SIZE_NOT_INVERTIBLE: &'static str = "domain size is not invertible";

/// The error reported for a domain of size `n` that cannot be used.
pub open spec fn domain_error<F: LagrangeField>(n: nat) -> BackendError {
    if !is_pow2(n) {
        BackendError::Math(NOT_POWER_OF_TWO)
    } else {
        BackendError::Math(INVALID_DOMAIN)
    }
}

/// The size of a radix-2 domain is a unit of the field.
pub proof fn lemma_domain_size_unit<F: LagrangeField>(n: nat)
    requires
        domain_ok::<F>(n),
    ensures
        (n as int) % F::modulus() != 0,
        0 < n < F::modulus(),
{
    let s = F::spec_two_adicity();
    let k = log2(n);
    lemma_log2(n);
    F::lemma_root_of_unity();
    if k < s {
        vstd::arithmetic::power2::lemma_pow2_strictly_increases(k, s);
    }
    vstd::arithmetic::power2::lemma_pow2_pos(k);
    lemma_canonical_mod(n as int, F::modulus());
}

/// `c` holds the coefficients of the `i`-th Lagrange basis polynomial on the
/// domain of size `n`: `c_j = omega^(-ij) / n`, i.e. `n * omega^(ij) * c_j == 1`.
pub open spec fn is_lagrange_basis<F: LagrangeField>(c: Seq<int>, n: nat, i: nat) -> bool {
    &&& c.len() == n
    &&& forall|j: int|
        0 <= j < n ==> ((n as int) * pow(domain_gen::<F>(n), (i * j) as nat) * #[trigger] c[j])
            % F::modulus() == 1
}

pub proof fn lemma_mul_mod(a: int, b: int, m: int)
    requires
        m > 0,
    ensures
        ((a % m) * (b % m)) % m == (a * b) % m,
{
    lemma_mul_mod_noop_right(a % m, b, m);
    lemma_mul_mod_noop_left(a, b, m);
}

proof fn lemma_pow_one(e: nat)
    ensures
        pow(1, e) == 1,
    decreases e,
{
    reveal(pow);
    if e > 0 {
        lemma_pow_one((e - 1) as nat);
    }
}

/// Powers of mutually inverse residues are mutually inverse.
pub proof fn lemma_inverse_pow(w: int, winv: int, e: nat, m: int)
    requires
        m > 1,
        (w * winv) % m == 1,
    ensures
        (pow(w, e) * pow(winv, e)) % m == 1,
{
    lemma_pow_distributes(w, winv, e);
    lemma_pow_mod_noop(w * winv, e, m);
    lemma_pow_one(e);
    lemma_canonical_mod(1, m);
}

/// A product of two residues that are 1 is 1.
proof fn lemma_units(x: int, y: int, m: int)
    requires
        m > 1,
        x % m == 1,
        y % m == 1,
    ensures
        (x * y) % m == 1,
{
    lemma_mul_mod(x, y, m);
    lemma_canonical_mod(1, m);
}

proof fn lemma_log2(n: nat)
    requires
        is_pow2(n),
    ensures
        pow2(log2(n)) == n,
    decreases n,
{
    reveal(pow);
    if n > 1 {
        lemma_log2(n / 2);
        vstd::arithmetic::power::lemma_pow_positive(2, log2(n / 2));
        assert(pow(2, log2(n / 2) + 1) == 2 * pow(2, log2(n / 2)));
    } else {
        assert(pow(2, 0) == 1);
    }
}

/// `x^e` by repeated multiplication.
fn field_pow<F: FieldElement>(x: &F, e: usize) -> (r: F)
    ensures
        r.val() == pow(x.val(), e as nat) % F::modulus(),
{
    proof {
        F::lemma_canonical(*x);
        reveal(pow);
        lemma_canonical_mod(1, F::modulus());
    }
    let mut acc = F::one();
    let mut i: usize = 0;
    while i < e
        invariant
            F::modulus() > 1,
            i <= e,
            acc.val() == pow(x.val(), i as nat) % F::modulus(),
        decreases e - i,
    {
        proof {
            lemma_pow_mod_step(x.val(), i as nat, F::modulus());
        }
        acc = acc.mul(x);
        i = i + 1;
    }
    acc
}

/// Number of halvings that bring `n` down to 1.
fn log2_exec(n: usize) -> (r: usize)
    requires
        n >= 1,
    ensures
        r as nat == log2(n as nat),
{
    let mut m: usize = n;
    let mut k: usize = 0;
    while m > 1
        invariant
            m >= 1,
            k as nat + log2(m as nat) == log2(n as nat),
            k as nat + m <= n,
        decreases m,
    {
        m = m / 2;
        k = k + 1;
    }
    k
}

/// The generator of the radix-2 domain of size `n`; `None` where `F` has no
/// such domain.
pub fn domain_generator<F: LagrangeField>(n: usize) -> (r: Option<F>)
    requires
        is_pow2(n as nat),
    ensures
        r is Some <==> log2(n as nat) <= F::spec_two_adicity(),
        r is Some ==> r->Some_0.val() == domain_gen::<F>(n as nat),
{
    let s = F::two_adicity() as usize;
    let k = log2_exec(n);
    if k > s {
        return None;
    }
    let root = F::two_adic_root_of_unity();
    let ghost m = F::modulus();
    let ghost rt = F::spec_root();
    proof {
        F::lemma_canonical(root);
        reveal(pow);
        assert(pow2(0) == 1);
        assert(pow(rt, 1) == rt * pow(rt, 0));
        lemma_canonical_mod(rt, m);
    }
    let mut x = root;
    let mut i: usize = 0;
    while i < s - k
        invariant
            m == F::modulus(),
            m > 1,
            rt == F::spec_root(),
            k <= s,
            i <= s - k,
            x.val() == pow(rt, pow2(i as nat)) % m,
        decreases s - k - i,
    {
        proof {
            let big = pow(rt, pow2(i as nat));
            lemma_mul_mod(big, big, m);
            lemma_pow_adds(rt, pow2(i as nat), pow2(i as nat));
            reveal(pow);
            vstd::arithmetic::power::lemma_pow_positive(2, i as nat);
            assert(pow(2, (i + 1) as nat) == 2 * pow(2, i as nat));
            assert(pow2((i + 1) as nat) == pow2(i as nat) + pow2(i as nat));
        }
        x = x.mul(&x);
        i = i + 1;
    }
    Some(x)
}

/// The domain generator is a unit: its `n`-th power is 1.
proof fn lemma_domain_gen_nonzero<F: LagrangeField>(n: nat)
    requires
        is_pow2(n),
        log2(n) <= F::spec_two_adicity(),
    ensures
        domain_gen::<F>(n) != 0,
{
    let s = F::spec_two_adicity();
    let k = log2(n);
    let m = F::modulus();
    F::lemma_root_of_unity();
    F::lemma_modulus();
    let rt = F::spec_root();
    let big = pow(rt, pow2((s - k) as nat));
    if big % m == 0 {
        vstd::arithmetic::power::lemma_pow_multiplies(rt, pow2((s - k) as nat), pow2(k));
        lemma_pow_adds(2, (s - k) as nat, k);
        vstd::arithmetic::power::lemma_pow_positive(2, (s - k) as nat);
        vstd::arithmetic::power::lemma_pow_positive(2, k);
        assert((s - k) as nat + k == s);
        assert(pow2((s - k) as nat) * pow2(k) == pow2(s));
        lemma_pow_mod_noop(big, pow2(k), m);
        vstd::arithmetic::power2::lemma_pow2_pos(k);
        reveal(pow);
        assert(pow(0, pow2(k)) == 0 * pow(0, (pow2(k) - 1) as nat));
        lemma_canonical_mod(0, m);
    }
}

/// Coefficients `c_j = ninv * step^j` for `j < n`, where `step = omega^(-i)`
/// and `ninv = 1/n`.
fn basis_coeffs<F: LagrangeField>(n: usize, i: usize, w: &F, winv: &F, ninv: &F) -> (r: Vec<F>)
    requires
        domain_ok::<F>(n as nat),
        w.val() == domain_gen::<F>(n as nat),
        (w.val() * winv.val()) % F::modulus() == 1,
        ((n as int) * ninv.val()) % F::modulus() == 1,
    ensures
        is_lagrange_basis::<F>(crate::poly::vals(r@), n as nat, i as nat),
{
    let ghost m = F::modulus();
    let ghost wv = w.val();
    let ghost wi = winv.val();
    proof {
        F::lemma_modulus();
    }
    let step = field_pow(winv, i);
    let mut c = *ninv;
    let mut out: Vec<F> = Vec::new();
    let mut j: usize = 0;
    proof {
        reveal(pow);
        assert(pow(wi, 0) == 1);
        F::lemma_canonical(*ninv);
        lemma_canonical_mod(ninv.val(), m);
        assert(i * 0 == 0);
    }
    while j < n
        invariant
            m == F::modulus(),
            m > 1,
            wv == w.val(),
            wi == winv.val(),
            wv == domain_gen::<F>(n as nat),
            (wv * wi) % m == 1,
            ((n as int) * ninv.val()) % m == 1,
            step.val() == pow(wi, i as nat) % m,
            j <= n,
            out@.len() == j,
            c.val() == (ninv.val() * pow(wi, (i * j) as nat)) % m,
            forall|q: int|
                0 <= q < j ==> ((n as int) * pow(wv, (i * q) as nat) * #[trigger] out@[q].val()) % m
                    == 1,
        decreases n - j,
    {
        proof {
            let e = (i * j) as nat;
            let a = pow(wv, e);
            let b = pow(wi, e);
            lemma_inverse_pow(wv, wi, e, m);
            // n * a * ((ninv * b) % m) == (n * ninv) * (a * b) modulo m
            lemma_mul_mod_noop_right((n as int) * a, ninv.val() * b, m);
            assert((n as int) * a * (ninv.val() * b) == ((n as int) * ninv.val()) * (a * b))
                by (nonlinear_arith);
            lemma_units((n as int) * ninv.val(), a * b, m);
        }
        out.push(c);
        proof {
            let e = (i * j) as nat;
            lemma_mul_mod(ninv.val() * pow(wi, e), pow(wi, i as nat), m);
            lemma_pow_adds(wi, e, i as nat);
            assert(ninv.val() * pow(wi, e) * pow(wi, i as nat) == ninv.val() * (pow(wi, e) * pow(
                wi,
                i as nat,
            ))) by (nonlinear_arith);
            assert(i * (j + 1) == i * j + i) by (nonlinear_arith);
            F::lemma_canonical(step);
            lemma_canonical_mod(step.val(), m);
        }
        c = c.mul(&step);
        j = j + 1;
    }
    proof {
        assert forall|q: int| 0 <= q < n implies ((n as int) * pow(
            domain_gen::<F>(n as nat),
            (i * q) as nat,
        ) * #[trigger] crate::poly::vals(out@)[q]) % m == 1 by {
            assert(crate::poly::vals(out@)[q] == out@[q].val());
        }
    }
    out
}

/// Domain generator, its inverse and the inverse of `n`, or the reason the
/// domain of size `n` cannot be used.
fn domain_units<F: LagrangeField>(n: usize) -> (r: Result<(F, F, F), BackendError>)
    ensures
        r is Ok <==> domain_ok::<F>(n as nat),
        r is Err ==> r->Err_0 == domain_error::<F>(n as nat),
        r is Ok ==> ({
            let (w, winv, ninv) = r->Ok_0;
            &&& w.val() == domain_gen::<F>(n as nat)
            &&& (w.val() * winv.val()) % F::modulus() == 1
            &&& ((n as int) * ninv.val()) % F::modulus() == 1
        }),
{
    if !is_power_of_two(n) {
        return Err(BackendError::Math(NOT_POWER_OF_TWO));
    }
    let w = match domain_generator::<F>(n) {
        Some(w) => w,
        None => {
            return Err(BackendError::Math(INVALID_DOMAIN));
        },
    };
    proof {
        lemma_domain_gen_nonzero::<F>(n as nat);
    }
    let winv = match w.inverse() {
        Some(x) => x,
        None => {
            return Err(BackendError::Math(INVALID_GENERATOR));
        },
    };
    proof {
        lemma_domain_size_unit::<F>(n as nat);
        lemma_canonical_mod(n as int, F::modulus());
    }
    let n_scalar = F::from_u64(n as u64);
    let ninv = match n_scalar.inverse() {
        Some(x) => x,
        None => {
            return Err(BackendError::Math(SIZE_NOT_INVERTIBLE));
        },
    };
    proof {
        F::lemma_modulus();
        lemma_mul_mod_noop_left(n as int, ninv.val(), F::modulus());
    }
    Ok((w, winv, ninv))
}

/// The `index`-th Lagrange basis polynomial over the radix-2 domain of size `n`.
pub fn lagrange_poly<F: LagrangeField>(n: usize, index: usize) -> (r: Result<
    DensePolynomial<F>,
    BackendError,
>)
    ensures
        r is Err <==> (index >= n || !domain_ok::<F>(n as nat)),
        index >= n ==> r == Err::<DensePolynomial<F>, BackendError>(
            BackendError::Math(LAGRANGE_INDEX_OUT_OF_RANGE),
        ),
        index < n && r is Err ==> r->Err_0 == domain_error::<F>(n as nat),
        r is Ok ==> is_lagrange_basis::<F>(r->Ok_0@, n as nat, index as nat),
{
    if index >= n {
        return Err(BackendError::Math(LAGRANGE_INDEX_OUT_OF_RANGE));
    }
    let (w, winv, ninv) = domain_units::<F>(n)?;
    let coeffs = basis_coeffs(n, index, &w, &winv, &ninv);
    Ok(DensePolynomial::from_coefficients_vec(coeffs))
}

/// All `n` Lagrange basis polynomials over the radix-2 domain of size `n`,
/// from two field inversions in total.
pub fn lagrange_polys<F: LagrangeField>(n: usize) -> (r: Result<Vec<DensePolynomial<F>>, BackendError>)
    ensures
        r is Err <==> !domain_ok::<F>(n as nat),
        r is Err ==> r->Err_0 == domain_error::<F>(n as nat),
        r is Ok ==> r->Ok_0@.len() == n && forall|i: int|
            0 <= i < n ==> is_lagrange_basis::<F>(#[trigger] r->Ok_0@[i]@, n as nat, i as nat),
{
    let (w, winv, ninv) = domain_units::<F>(n)?;
    let mut polys: Vec<DensePolynomial<F>> = Vec::new();
    let mut i: usize = 0;
    while i < n
        invariant
            domain_ok::<F>(n as nat),
            w.val() == domain_gen::<F>(n as nat),
            (w.val() * winv.val()) % F::modulus() == 1,
            ((n as int) * ninv.val()) % F::modulus() == 1,
            i <= n,
            polys@.len() == i,
            forall|q: int| 0 <= q < i ==> is_lagrange_basis::<F>(#[trigger] polys@[q]@, n as nat, q as nat),
        decreases n - i,
    {
        let coeffs = basis_coeffs(n, i, &w, &winv, &ninv);
        polys.push(DensePolynomial::from_coefficients_vec(coeffs));
        i = i + 1;
    }
    Ok(polys)
}

/// `prod_{1 <= k < K} (x - pts[k])` over the integers.
pub open spec fn prod_diffs(pts: Seq<int>, x: int, k: nat) -> int
    decreases k,
{
    if k <= 1 {
        1
    } else {
        prod_diffs(pts, x, (k - 1) as nat) * (x - pts[k - 1])
    }
}

/// Coefficients of `prod_{1 <= k < K} (X - pts[k])` modulo `m`, built one
/// linear factor at a time.
pub open spec fn prod_poly(pts: Seq<int>, kk: nat, m: int) -> Seq<int>
    decreases kk,
{
    if kk <= 1 {
        seq![1int]
    } else {
        reduce(mul_linear(prod_poly(pts, (kk - 1) as nat, m), (-pts[kk - 1]) % m), m)
    }
}

/// Message of the error for points that repeat the first one.
pub const INTERP_SCALE_FAILED: &'static str = "interpolation scale inversion failed";

/// Coefficients of `c * (X + na)`, before reduction.
pub open spec fn mul_linear(c: Seq<int>, na: int) -> Seq<int> {
    Seq::new(c.len() + 1, |j: int| coef(c, j - 1) + na * coef(c, j))
}

proof fn lemma_mul_linear_upto(c: Seq<int>, na: int, x: int, k: nat)
    ensures
        eval_upto(mul_linear(c, na), x, k + 1) == x * eval_upto(c, x, k) + na * eval_upto(
            c,
            x,
            k + 1,
        ),
    decreases k,
{
    let l = mul_linear(c, na);
    reveal(pow);
    if k == 0 {
        assert(eval_upto(l, x, 0) == 0);
        assert(coef(l, 0) == coef(c, -1) + na * coef(c, 0));
        assert(eval_upto(c, x, 0) == 0);
    } else {
        lemma_mul_linear_upto(c, na, x, (k - 1) as nat);
        let ek1 = eval_upto(c, x, (k - 1) as nat);
        let ek = eval_upto(c, x, k);
        let pk1 = pow(x, (k - 1) as nat);
        let pk = pow(x, k);
        assert(pk == x * pk1);
        assert(coef(l, k as int) == coef(c, k - 1) + na * coef(c, k as int));
        assert(ek == ek1 + coef(c, k - 1) * pk1);
        lemma_linear_step(x, na, ek1, ek, coef(c, k - 1), coef(c, k as int), pk1);
    }
}

proof fn lemma_linear_step(x: int, na: int, e1: int, ek: int, u: int, v: int, p: int)
    ensures
        x * e1 + na * ek + (u + na * v) * (x * p) == x * (e1 + u * p) + na * (ek + v * (x * p)),
{
    lemma_mul_rearrangements(x, na, e1, ek, u, v, p);
}

proof fn lemma_mul_rearrangements(x: int, na: int, e1: int, ek: int, u: int, v: int, p: int)
    ensures
        (u + na * v) * (x * p) == u * (x * p) + (na * v) * (x * p),
        x * (e1 + u * p) == x * e1 + x * (u * p),
        na * (ek + v * (x * p)) == na * ek + na * (v * (x * p)),
        u * (x * p) == x * (u * p),
        (na * v) * (x * p) == na * (v * (x * p)),
{
    vstd::arithmetic::mul::lemma_mul_is_distributive_add_other_way(x * p, u, na * v);
    vstd::arithmetic::mul::lemma_mul_is_distributive_add(x, e1, u * p);
    vstd::arithmetic::mul::lemma_mul_is_distributive_add(na, ek, v * (x * p));
    vstd::arithmetic::mul::lemma_mul_is_associative(u, x, p);
    vstd::arithmetic::mul::lemma_mul_is_associative(x, u, p);
    vstd::arithmetic::mul::lemma_mul_is_commutative(u, x);
    vstd::arithmetic::mul::lemma_mul_is_associative(na, v, x * p);
}

/// Multiplying by `X + na` multiplies every value by `x + na`.
proof fn lemma_mul_linear(c: Seq<int>, na: int, x: int)
    ensures
        poly_eval(mul_linear(c, na), x) == (x + na) * poly_eval(c, x),
{
    lemma_mul_linear_upto(c, na, x, c.len());
    lemma_eval_past_end(c, x, c.len() + 1);
    assert(x * poly_eval(c, x) + na * poly_eval(c, x) == (x + na) * poly_eval(c, x))
        by (nonlinear_arith);
}

/// Coefficient-wise congruent polynomials take congruent values.
proof fn lemma_eval_congruent(d: Seq<int>, l: Seq<int>, x: int, m: int)
    requires
        m > 0,
        d.len() == l.len(),
        forall|j: int| 0 <= j < d.len() ==> #[trigger] (d[j] % m) == l[j] % m,
    ensures
        poly_eval(d, x) % m == poly_eval(l, x) % m,
{
    assert forall|j: int| 0 <= j < d.len() implies #[trigger] (d[j] % m) == (1 * coef(l, j) + 0
        * coef(Seq::<int>::empty(), j)) % m by {}
    lemma_commit_linear(l, Seq::empty(), d, 1, 0, x, m);
    vstd::arithmetic::div_mod::lemma_mod_twice(poly_eval(l, x), m);
}

/// The coefficients of `c * (X + neg_a)`.
fn mul_by_linear<F: FieldElement>(c: &Vec<F>, neg_a: &F) -> (r: Vec<F>)
    requires
        c@.len() < usize::MAX,
    ensures
        r@.len() == c@.len() + 1,
        forall|j: int|
            0 <= j <= c@.len() ==> #[trigger] r@[j].val() % F::modulus() == mul_linear(
                vals(c@),
                neg_a.val(),
            )[j] % F::modulus(),
        vals(r@) == reduce(mul_linear(vals(c@), neg_a.val()), F::modulus()),
{
    let ghost m = F::modulus();
    let ghost cv = vals(c@);
    let ghost na = neg_a.val();
    proof {
        F::lemma_modulus();
    }
    let n = c.len();
    let zero = F::zero();
    let mut out: Vec<F> = Vec::new();
    let mut j: usize = 0;
    while j <= n
        invariant
            m == F::modulus(),
            m > 1,
            cv == vals(c@),
            na == neg_a.val(),
            n == c@.len(),
            n < usize::MAX,
            zero.val() == 0,
            j <= n + 1,
            out@.len() == j,
            forall|q: int| 0 <= q < j ==> #[trigger] out@[q].val() % m == mul_linear(cv, na)[q] % m,
        decreases n + 1 - j,
    {
        let prev = if j > 0 {
            c[j - 1]
        } else {
            zero
        };
        let cur = if j < n {
            c[j]
        } else {
            zero
        };
        let term = prev.add(&neg_a.mul(&cur));
        proof {
            assert(prev.val() == coef(cv, j - 1));
            assert(cur.val() == coef(cv, j as int));
            vstd::arithmetic::div_mod::lemma_add_mod_noop_right(prev.val(), na * cur.val(), m);
            F::lemma_canonical(term);
            vstd::arithmetic::div_mod::lemma_mod_twice(prev.val() + na * cur.val(), m);
            lemma_canonical_mod(term.val(), m);
        }
        out.push(term);
        j = j + 1;
    }
    proof {
        let red = reduce(mul_linear(cv, na), m);
        assert forall|q: int| 0 <= q < out@.len() implies #[trigger] vals(out@)[q] == red[q] by {
            F::lemma_canonical(out@[q]);
            lemma_canonical_mod(out@[q].val(), m);
        }
        assert(vals(out@) =~= red);
    }
    out
}

/// Rescaling a coefficient by `eval / s` (with `si` the inverse of `s`)
/// multiplies it back to `eval` times the coefficient once scaled by `s`.
proof fn lemma_rescale(qi: int, e: int, si: int, s: int, m: int)
    requires
        m > 0,
        (si * s) % m == 1,
    ensures
        (((qi * ((e * si) % m)) % m) * s) % m == (e * qi) % m,
{
    let f = (e * si) % m;
    lemma_mul_mod_noop_left(qi * f, s, m);
    assert(qi * f * s == f * (qi * s)) by (nonlinear_arith);
    lemma_mul_mod_noop_left(e * si, qi * s, m);
    assert((e * si) * (qi * s) == (e * qi) * (si * s)) by (nonlinear_arith);
    lemma_mul_mod_noop_right(e * qi, si * s, m);
    assert((e * qi) * 1 == e * qi);
}

/// The rescaling in `interp_mostly_zero` fixes each coefficient: for a unit
/// `s`, at most one canonical `c` has `c * s == v (mod m)`.
pub proof fn lemma_rescale_unique<F: FieldElement>(c1: int, c2: int, s: int, v: int)
    requires
        0 <= c1 < F::modulus(),
        0 <= c2 < F::modulus(),
        s % F::modulus() != 0,
        (c1 * s) % F::modulus() == v % F::modulus(),
        (c2 * s) % F::modulus() == v % F::modulus(),
    ensures
        c1 == c2,
{
    F::lemma_modulus();
    vstd::arithmetic::mul::lemma_mul_is_commutative(c1, s);
    vstd::arithmetic::mul::lemma_mul_is_commutative(c2, s);
    lemma_cancel::<F>(s, c1, c2);
    lemma_canonical_mod(c1, F::modulus());
    lemma_canonical_mod(c2, F::modulus());
}

/// Interpolation is linear in the value: the coefficients for value `a * e`
/// are `a` times those for `e`.
pub proof fn lemma_interp_scales<F: FieldElement>(c: int, c2: int, q: int, s: int, e: int, a: int)
    requires
        0 <= c < F::modulus(),
        0 <= c2 < F::modulus(),
        s % F::modulus() != 0,
        (c * s) % F::modulus() == (e * q) % F::modulus(),
        (c2 * s) % F::modulus() == (((a * e) % F::modulus()) * q) % F::modulus(),
    ensures
        c2 == (a * c) % F::modulus(),
{
    let m = F::modulus();
    F::lemma_modulus();
    // (a c) s == a (e q) == (a e) q, modulo m
    lemma_mul_mod_noop_left(a * c, s, m);
    lemma_mul_mod_noop_left(a * e, q, m);
    lemma_mul_mod_noop_right(a, c * s, m);
    lemma_mul_mod_noop_right(a, e * q, m);
    assert((a * c) * s == a * (c * s)) by (nonlinear_arith);
    assert((a * e) * q == a * (e * q)) by (nonlinear_arith);
    vstd::arithmetic::div_mod::lemma_mod_bound(a * c, m);
    lemma_rescale_unique::<F>(c2, (a * c) % m, s, (a * e) * q);
}

/// A product with a vanishing factor vanishes.
proof fn lemma_prod_zero_at(pts: Seq<int>, x: int, kk: nat, k: int)
    requires
        1 <= k < kk <= pts.len(),
        x == pts[k],
    ensures
        prod_diffs(pts, x, kk) == 0,
    decreases kk,
{
    assert(prod_diffs(pts, x, kk) == prod_diffs(pts, x, (kk - 1) as nat) * (x - pts[kk - 1]));
    if kk - 1 > k {
        lemma_prod_zero_at(pts, x, (kk - 1) as nat, k);
        assert(0 * (x - pts[kk - 1]) == 0);
    } else {
        assert(prod_diffs(pts, x, (kk - 1) as nat) * 0 == 0);
    }
}

/// A prime field has no zero divisors.
proof fn lemma_no_zero_divisors<F: FieldElement>(a: int, b: int)
    requires
        a % F::modulus() != 0,
        b % F::modulus() != 0,
    ensures
        (a * b) % F::modulus() != 0,
{
    let m = F::modulus();
    F::lemma_modulus();
    let a0 = a % m;
    vstd::arithmetic::div_mod::lemma_mod_bound(a, m);
    F::lemma_invertible(a0);
    let ai = choose|ai: int| 0 <= ai < m && #[trigger] ((a0 * ai) % m) == 1;
    if (a * b) % m == 0 {
        lemma_mul_mod_noop_right(ai, a * b, m);
        lemma_mul_mod_noop_right(ai, a, m);
        vstd::arithmetic::mul::lemma_mul_is_commutative(ai, a0);
        vstd::arithmetic::mul::lemma_mul_is_associative(ai, a, b);
        lemma_mul_mod_noop_left(ai * a, b, m);
        assert(ai * 0 == 0);
        assert(1 * b == b);
    }
}

/// Canonical residues that differ give a difference that is not 0 modulo `m`.
proof fn lemma_distinct_residues(x: int, y: int, m: int)
    requires
        0 <= x < m,
        0 <= y < m,
        x != y,
    ensures
        (x - y) % m != 0,
{
    if x > y {
        lemma_canonical_mod(x - y, m);
    } else {
        vstd::arithmetic::div_mod::lemma_mod_add_multiples_vanish(x - y, m);
        lemma_canonical_mod(m + (x - y), m);
    }
}

/// With no vanishing factor, the product does not vanish modulo the field size.
proof fn lemma_prod_nonzero<F: FieldElement>(pts: Seq<int>, x: int, kk: nat)
    requires
        kk <= pts.len(),
        0 <= x < F::modulus(),
        forall|k: int| 1 <= k < kk ==> 0 <= #[trigger] pts[k] < F::modulus() && pts[k] != x,
    ensures
        prod_diffs(pts, x, kk) % F::modulus() != 0,
    decreases kk,
{
    F::lemma_modulus();
    if kk <= 1 {
        lemma_canonical_mod(1, F::modulus());
    } else {
        lemma_prod_nonzero::<F>(pts, x, (kk - 1) as nat);
        lemma_distinct_residues(x, pts[kk - 1], F::modulus());
        lemma_no_zero_divisors::<F>(prod_diffs(pts, x, (kk - 1) as nat), x - pts[kk - 1]);
    }
}

/// The polynomial of degree `points.len() - 1` that is `eval` at `points[0]`
/// and zero at every other point: `prod_{k >= 1} (X - p_k)`, rescaled by
/// `eval / prod_{k >= 1} (p_0 - p_k)`.  For no points, the constant 1.
pub fn interp_mostly_zero<F: FieldElement>(eval: F, points: &[F]) -> (r: Result<
    DensePolynomial<F>,
    BackendError,
>)
    requires
        points@.len() < usize::MAX,
    ensures
        points@.len() == 0 ==> r is Ok && r->Ok_0@ == seq![1int],
        r is Err ==> r->Err_0 == BackendError::Math(INTERP_SCALE_FAILED),
        points@.len() > 0 ==> (r is Err <==> exists|k: int|
            1 <= k < points@.len() && #[trigger] points@[k].val() == points@[0].val()),
        points@.len() > 0 && r is Ok ==> ({
            let c = r->Ok_0@;
            &&& c.len() == points@.len()
            &&& poly_eval(c, points@[0].val()) % F::modulus() == eval.val()
            &&& forall|k: int|
                1 <= k < points@.len() ==> #[trigger] poly_eval(c, points@[k].val()) % F::modulus()
                    == 0
        }),
        // the coefficients are those of eval / s * prod_{k >= 1} (X - p_k),
        // with s = prod_{k >= 1} (p_0 - p_k) a unit
        points@.len() > 0 && r is Ok ==> ({
            let c = r->Ok_0@;
            let m = F::modulus();
            let q = prod_poly(vals(points@), points@.len() as nat, m);
            let s = prod_diffs(vals(points@), points@[0].val(), points@.len() as nat) % m;
            &&& s != 0
            &&& c.len() == q.len()
            &&& forall|j: int|
                0 <= j < c.len() ==> 0 <= #[trigger] c[j] < m && (c[j] * s) % m == (eval.val()
                    * q[j]) % m
        }),
{
    let ghost m = F::modulus();
    proof {
        F::lemma_modulus();
        F::lemma_canonical(eval);
    }
    if points.len() == 0 {
        let mut one: Vec<F> = Vec::new();
        one.push(F::one());
        proof {
            assert(vals(one@) =~= seq![1int]);
        }
        return Ok(DensePolynomial::from_coefficients_vec(one));
    }
    let ghost pv = vals(points@);
    let p0 = points[0];
    let ghost x0 = p0.val();
    let mut q: Vec<F> = Vec::new();
    q.push(F::one());
    let mut scale = F::one();
    proof {
        assert(vals(q@) =~= seq![1int]);
        reveal(pow);
        lemma_canonical_mod(1, m);
        assert forall|x: int| #[trigger] poly_eval(vals(q@), x) % m == prod_diffs(pv, x, 1) % m by {
            assert(coef(vals(q@), 0) == 1);
            assert(eval_upto(vals(q@), x, 1) == eval_upto(vals(q@), x, 0) + coef(vals(q@), 0) * pow(x, 0));
        }
    }
    let n = points.len();
    let mut k: usize = 1;
    while k < n
        invariant
            m == F::modulus(),
            m > 1,
            n == points@.len(),
            n < usize::MAX,
            pv == vals(points@),
            p0 == points@[0],
            x0 == p0.val(),
            1 <= k <= n,
            q@.len() == k,
            vals(q@) == prod_poly(pv, k as nat, m),
            scale.val() == prod_diffs(pv, x0, k as nat) % m,
            forall|x: int| #[trigger] poly_eval(vals(q@), x) % m == prod_diffs(pv, x, k as nat) % m,
        decreases n - k,
    {
        let pk = points[k];
        let na = pk.neg();
        let next = mul_by_linear(&q, &na);
        let diff = p0.sub(&pk);
        proof {
            assert(pv[k as int] == pk.val());
            let ghost e = mul_linear(vals(q@), na.val());
            assert forall|x: int| #[trigger] poly_eval(vals(next@), x) % m == prod_diffs(pv, x, (k + 1) as nat) % m by {
                assert forall|j: int| 0 <= j < vals(next@).len() implies #[trigger] (vals(next@)[j] % m) == e[j] % m by {
                    assert(vals(next@)[j] == next@[j].val());
                }
                lemma_eval_congruent(vals(next@), e, x, m);
                lemma_mul_linear(vals(q@), na.val(), x);
                let ev = poly_eval(vals(q@), x);
                let pr = prod_diffs(pv, x, k as nat);
                lemma_mul_mod(x + na.val(), ev, m);
                lemma_mul_mod(x - pk.val(), pr, m);
                vstd::arithmetic::div_mod::lemma_add_mod_noop_right(x, -pk.val(), m);
                vstd::arithmetic::mul::lemma_mul_is_commutative(x - pk.val(), pr);
            }
            lemma_mul_mod(prod_diffs(pv, x0, k as nat), x0 - pk.val(), m);
        }
        proof {
            assert(na.val() == (-pv[k as int]) % m);
            assert(vals(next@) == prod_poly(pv, (k + 1) as nat, m));
        }
        scale = scale.mul(&diff);
        q = next;
        k = k + 1;
    }
    let scale_inv = match scale.inverse() {
        Some(x) => x,
        None => {
            proof {
                if forall|j: int| 1 <= j < n ==> #[trigger] points@[j].val() != points@[0].val() {
                    assert forall|j: int| 1 <= j < n implies 0 <= #[trigger] pv[j] < m && pv[j] != x0 by {
                        F::lemma_canonical(points@[j]);
                    }
                    F::lemma_canonical(p0);
                    lemma_prod_nonzero::<F>(pv, x0, n as nat);
                }
            }
            return Err(BackendError::Math(INTERP_SCALE_FAILED));
        },
    };
    proof {
        if exists|j: int| 1 <= j < n && #[trigger] points@[j].val() == points@[0].val() {
            let j = choose|j: int| 1 <= j < n && #[trigger] points@[j].val() == points@[0].val();
            lemma_prod_zero_at(pv, x0, n as nat, j);
            lemma_canonical_mod(0, m);
        }
    }
    let factor = eval.mul(&scale_inv);
    let mut out: Vec<F> = Vec::new();
    let mut j: usize = 0;
    while j < n
        invariant
            m == F::modulus(),
            m > 1,
            n == q@.len(),
            j <= n,
            out@.len() == j,
            forall|i: int| 0 <= i < j ==> #[trigger] out@[i].val() == (q@[i].val() * factor.val()) % m,
        decreases n - j,
    {
        out.push(q[j].mul(&factor));
        j = j + 1;
    }
    proof {
        let qv = vals(q@);
        let rv = vals(out@);
        let fv = factor.val();
        assert forall|i: int| 0 <= i < rv.len() implies #[trigger] (rv[i] % m) == (fv * coef(qv, i) + 0 * coef(Seq::<int>::empty(), i)) % m by {
            assert(rv[i] == out@[i].val());
            vstd::arithmetic::div_mod::lemma_mod_twice(q@[i].val() * fv, m);
            vstd::arithmetic::mul::lemma_mul_is_commutative(q@[i].val(), fv);
        }
        assert forall|x: int| #[trigger] poly_eval(rv, x) % m == (fv * (poly_eval(qv, x) % m)) % m by {
            lemma_commit_linear(qv, Seq::empty(), rv, fv, 0, x, m);
        }
        assert forall|k: int| 1 <= k < n implies #[trigger] poly_eval(rv, points@[k].val()) % m == 0 by {
            let xk = points@[k].val();
            lemma_prod_zero_at(pv, xk, n as nat, k);
            assert(pv[k] == xk);
            lemma_canonical_mod(0, m);
            assert(poly_eval(qv, xk) % m == prod_diffs(pv, xk, n as nat) % m);
            assert(poly_eval(rv, xk) % m == (fv * (poly_eval(qv, xk) % m)) % m);
            assert(fv * 0 == 0);
        }
        // at p0: fv * scale == eval
        let sv = scale.val();
        let si = scale_inv.val();
        let ev = eval.val();
        lemma_mul_mod_noop_left(ev * si, sv, m);
        vstd::arithmetic::mul::lemma_mul_is_associative(ev, si, sv);
        lemma_mul_mod_noop_right(ev, si * sv, m);
        vstd::arithmetic::mul::lemma_mul_is_commutative(si, sv);
        lemma_canonical_mod(ev, m);
        assert(poly_eval(qv, x0) % m == sv);
        assert(poly_eval(rv, x0) % m == (fv * sv) % m);
        assert(fv == (ev * si) % m);
        assert((fv * sv) % m == ((ev * si) * sv) % m);
        assert((ev * (si * sv)) % m == (ev * ((si * sv) % m)) % m);
        assert((si * sv) % m == 1);
        assert(ev * 1 == ev);
        assert(sv != 0);
        assert forall|j: int| 0 <= j < rv.len() implies 0 <= #[trigger] rv[j] < m && (rv[j] * sv) % m
            == (ev * qv[j]) % m by {
            assert(rv[j] == out@[j].val());
            F::lemma_canonical(out@[j]);
            vstd::arithmetic::mul::lemma_mul_is_commutative(si, sv);
            lemma_rescale(qv[j], ev, si, sv, m);
        }
    }
    Ok(DensePolynomial::from_coefficients_vec(out))
}

/// `n` times the domain generator's exponent table: `2^(s - log2 n) * n == 2^s`.
proof fn lemma_gen_exponent<F: LagrangeField>(n: nat)
    requires
        is_pow2(n),
        log2(n) <= F::spec_two_adicity(),
    ensures
        pow2((F::spec_two_adicity() - log2(n)) as nat) * n == pow2(F::spec_two_adicity()),
        pow2((F::spec_two_adicity() - log2(n)) as nat) > 0,
{
    let s = F::spec_two_adicity();
    let k = log2(n);
    lemma_log2(n);
    lemma_pow_adds(2, (s - k) as nat, k);
    vstd::arithmetic::power::lemma_pow_positive(2, (s - k) as nat);
    vstd::arithmetic::power::lemma_pow_positive(2, k);
    assert((s - k) as nat + k == s);
}

/// The domain generator of size `n` is an `n`-th root of unity ...
proof fn lemma_gen_pow_n<F: LagrangeField>(n: nat)
    requires
        is_pow2(n),
        log2(n) <= F::spec_two_adicity(),
    ensures
        pow(domain_gen::<F>(n), n) % F::modulus() == 1,
{
    let m = F::modulus();
    F::lemma_modulus();
    F::lemma_root_of_unity();
    let e = pow2((F::spec_two_adicity() - log2(n)) as nat);
    let big = pow(F::spec_root(), e);
    lemma_gen_exponent::<F>(n);
    lemma_pow_mod_noop(big, n, m);
    vstd::arithmetic::power::lemma_pow_multiplies(F::spec_root(), e, n);
}

/// ... of order exactly `n`.
proof fn lemma_gen_pow_ne_one<F: LagrangeField>(n: nat, d: nat)
    requires
        is_pow2(n),
        log2(n) <= F::spec_two_adicity(),
        0 < d < n,
    ensures
        pow(domain_gen::<F>(n), d) % F::modulus() != 1,
{
    let m = F::modulus();
    F::lemma_modulus();
    F::lemma_root_of_unity();
    let e = pow2((F::spec_two_adicity() - log2(n)) as nat);
    let big = pow(F::spec_root(), e);
    lemma_gen_exponent::<F>(n);
    lemma_pow_mod_noop(big, d, m);
    vstd::arithmetic::power::lemma_pow_multiplies(F::spec_root(), e, d);
    vstd::arithmetic::mul::lemma_mul_strict_inequality(d as int, n as int, e as int);
    vstd::arithmetic::mul::lemma_mul_is_commutative(d as int, e as int);
    vstd::arithmetic::mul::lemma_mul_is_commutative(n as int, e as int);
    assert(0 < e * d) by (nonlinear_arith)
        requires
            e > 0,
            d > 0,
    ;
    let j = (e * d) as nat;
    assert(0 < j < pow2(F::spec_two_adicity()));
    assert(pow(F::spec_root(), j) % m != 1);
}

/// `sum_{j < k} y^j`.
pub open spec fn geo(y: int, k: nat) -> int
    decreases k,
{
    if k == 0 {
        0
    } else {
        geo(y, (k - 1) as nat) + pow(y, (k - 1) as nat)
    }
}

proof fn lemma_geo(y: int, k: nat)
    ensures
        (y - 1) * geo(y, k) == pow(y, k) - 1,
    decreases k,
{
    reveal(pow);
    if k > 0 {
        lemma_geo(y, (k - 1) as nat);
        let g = geo(y, (k - 1) as nat);
        let p = pow(y, (k - 1) as nat);
        assert((y - 1) * (g + p) == (y - 1) * g + y * p - p) by (nonlinear_arith);
    }
}

proof fn lemma_geo_one(k: nat)
    ensures
        geo(1, k) == k,
    decreases k,
{
    if k > 0 {
        lemma_geo_one((k - 1) as nat);
        lemma_pow_one((k - 1) as nat);
    }
}

/// Each term of `n * L_i(omega^t)` is `omega^(d j)` for `d = t - i mod n`.
proof fn lemma_basis_term<F: LagrangeField>(c: Seq<int>, n: nat, i: nat, t: nat, d: nat, j: nat)
    requires
        domain_ok::<F>(n),
        is_lagrange_basis::<F>(c, n, i),
        i < n,
        t < n,
        d < n,
        i + d == t || i + d == t + n,
        j < n,
    ensures
        ((n as int) * (c[j as int] * pow(pow(domain_gen::<F>(n), t) % F::modulus(), j))) % F::modulus()
            == pow(domain_gen::<F>(n), d * j) % F::modulus(),
{
    let m = F::modulus();
    F::lemma_modulus();
    let w = domain_gen::<F>(n);
    let cj = c[j as int];
    let ni = n as int;
    // x^j == w^(t j)
    lemma_pow_mod_noop(pow(w, t), j, m);
    vstd::arithmetic::power::lemma_pow_multiplies(w, t, j);
    let wt = pow(w, t * j);
    let wi = pow(w, i * j);
    let wd = pow(w, d * j);
    // w^(t j) == w^(i j) * w^(d j) modulo m
    lemma_pow_adds(w, i * j, d * j);
    assert(i * j + d * j == (i + d) * j) by (nonlinear_arith);
    if i + d == t + n {
        assert((t + n) * j == t * j + n * j) by (nonlinear_arith);
        lemma_pow_adds(w, t * j, n * j);
        vstd::arithmetic::power::lemma_pow_multiplies(w, n, j);
        lemma_gen_pow_n::<F>(n);
        lemma_pow_mod_noop(pow(w, n), j, m);
        lemma_pow_one(j);
        lemma_canonical_mod(1, m);
        // pow(w, n j) % m == 1
        lemma_mul_mod(wt, pow(w, n * j), m);
        assert(wt % m * 1 == wt % m);
        vstd::arithmetic::div_mod::lemma_mod_twice(wt, m);
    } else {
        assert((i + d) * j == t * j);
    }
    assert(pow(w, (i + d) * j) % m == wt % m);
    assert(wt % m == (wi * wd) % m);
    // n * cj * x^j == (n * w^(ij) * cj) * w^(dj) == w^(dj) modulo m
    let x = pow(w, t) % m;
    let a = ni * (cj * pow(x, j));
    let b = ni * (cj * pow(pow(w, t), j));
    assert(a % m == b % m) by {
        lemma_mul_mod_noop_right(ni * cj, pow(x, j), m);
        lemma_mul_mod_noop_right(ni * cj, pow(pow(w, t), j), m);
        vstd::arithmetic::mul::lemma_mul_is_associative(ni, cj, pow(x, j));
        vstd::arithmetic::mul::lemma_mul_is_associative(ni, cj, pow(pow(w, t), j));
    }
    assert(pow(pow(w, t), j) == wt);
    assert(b == (ni * cj) * wt) by (nonlinear_arith)
        requires
            b == ni * (cj * pow(pow(w, t), j)),
            pow(pow(w, t), j) == wt,
    ;
    assert(b % m == ((ni * cj) * (wi * wd)) % m) by {
        lemma_mul_mod_noop_right(ni * cj, wt, m);
        lemma_mul_mod_noop_right(ni * cj, wi * wd, m);
    }
    assert((ni * cj) * (wi * wd) == (ni * wi * cj) * wd) by (nonlinear_arith);
    assert(((ni * wi * cj) % m) == 1);
    assert(((ni * wi * cj) * wd) % m == wd % m) by {
        lemma_mul_mod_noop_left(ni * wi * cj, wd, m);
        assert(1 * wd == wd);
    }
}

/// `n * L_i(x)` agrees with `sum_{j < k} omega^(d j)` term by term.
proof fn lemma_basis_sum<F: LagrangeField>(c: Seq<int>, n: nat, i: nat, t: nat, d: nat, k: nat)
    requires
        domain_ok::<F>(n),
        is_lagrange_basis::<F>(c, n, i),
        i < n,
        t < n,
        d < n,
        i + d == t || i + d == t + n,
        k <= n,
    ensures
        ((n as int) * eval_upto(c, pow(domain_gen::<F>(n), t) % F::modulus(), k)) % F::modulus()
            == geo(pow(domain_gen::<F>(n), d), k) % F::modulus(),
    decreases k,
{
    let m = F::modulus();
    F::lemma_modulus();
    let w = domain_gen::<F>(n);
    let x = pow(w, t) % m;
    let ni = n as int;
    if k == 0 {
        assert(ni * 0 == 0);
    } else {
        let j = (k - 1) as nat;
        lemma_basis_sum::<F>(c, n, i, t, d, j);
        lemma_basis_term::<F>(c, n, i, t, d, j);
        let e = eval_upto(c, x, j);
        let term = c[j as int] * pow(x, j);
        assert(coef(c, j as int) == c[j as int]);
        assert(ni * (e + term) == ni * e + ni * term) by (nonlinear_arith);
        vstd::arithmetic::power::lemma_pow_multiplies(w, d, j);
        lemma_add_mod_both(ni * e, ni * term, geo(pow(w, d), j), pow(pow(w, d), j), m);
    }
}

proof fn lemma_add_mod_both(a: int, b: int, a2: int, b2: int, m: int)
    requires
        m > 0,
        a % m == a2 % m,
        b % m == b2 % m,
    ensures
        (a + b) % m == (a2 + b2) % m,
{
    vstd::arithmetic::div_mod::lemma_add_mod_noop(a, b, m);
    vstd::arithmetic::div_mod::lemma_add_mod_noop(a2, b2, m);
}

/// A unit factor can be cancelled: `n * s == n * v (mod m)` gives `s == v (mod m)`.
proof fn lemma_cancel<F: FieldElement>(ni: int, sv: int, v: int)
    requires
        ni % F::modulus() != 0,
        (ni * sv) % F::modulus() == (ni * v) % F::modulus(),
    ensures
        sv % F::modulus() == v % F::modulus(),
{
    let m = F::modulus();
    F::lemma_modulus();
    vstd::arithmetic::div_mod::lemma_sub_mod_noop(ni * sv, ni * v, m);
    assert(ni * sv - ni * v == ni * (sv - v)) by (nonlinear_arith);
    vstd::arithmetic::div_mod::lemma_mod_bound(ni * sv, m);
    assert(((ni * sv) % m - (ni * v) % m) == 0);
    lemma_canonical_mod(0, m);
    if (sv - v) % m != 0 {
        lemma_no_zero_divisors::<F>(ni, sv - v);
    }
    vstd::arithmetic::div_mod::lemma_sub_mod_noop(sv, v, m);
    vstd::arithmetic::div_mod::lemma_mod_bound(sv, m);
    vstd::arithmetic::div_mod::lemma_mod_bound(v, m);
    if sv % m != v % m {
        lemma_distinct_residues(sv % m, v % m, m);
    }
}

/// Each Lagrange basis polynomial is 1 at its own point of the domain and 0
/// at every other point: `L_i(omega^t) == [t == i]`.
pub proof fn lemma_lagrange_indicator<F: LagrangeField>(c: Seq<int>, n: nat, i: nat, t: nat)
    requires
        domain_ok::<F>(n),
        is_lagrange_basis::<F>(c, n, i),
        i < n,
        t < n,
    ensures
        poly_eval(c, pow(domain_gen::<F>(n), t) % F::modulus()) % F::modulus() == (if t == i {
            1int
        } else {
            0int
        }),
{
    let m = F::modulus();
    F::lemma_modulus();
    lemma_domain_size_unit::<F>(n);
    let w = domain_gen::<F>(n);
    let x = pow(w, t) % m;
    let ni = n as int;
    let d: nat = if t >= i {
        (t - i) as nat
    } else {
        (t + n - i) as nat
    };
    lemma_basis_sum::<F>(c, n, i, t, d, n);
    let sv = poly_eval(c, x);
    let y = pow(w, d);
    let g = geo(y, n);
    assert((ni * sv) % m == g % m);
    if t == i {
        reveal(pow);
        assert(y == 1);
        lemma_geo_one(n);
        assert(ni * 1 == ni);
        lemma_cancel::<F>(ni, sv, 1);
        lemma_canonical_mod(1, m);
    } else {
        lemma_gen_pow_ne_one::<F>(n, d);
        lemma_geo(y, n);
        // y^n == 1 modulo m
        vstd::arithmetic::power::lemma_pow_multiplies(w, d, n);
        vstd::arithmetic::power::lemma_pow_multiplies(w, n, d);
        assert(d * n == n * d) by (nonlinear_arith);
        lemma_gen_pow_n::<F>(n);
        lemma_pow_mod_noop(pow(w, n), d, m);
        lemma_pow_one(d);
        lemma_canonical_mod(1, m);
        vstd::arithmetic::div_mod::lemma_sub_mod_noop(pow(y, n), 1, m);
        lemma_canonical_mod(0, m);
        // (y - 1) * g == 0 modulo m, and y - 1 is not
        vstd::arithmetic::div_mod::lemma_sub_mod_noop(y, 1, m);
        vstd::arithmetic::div_mod::lemma_mod_bound(y, m);
        if (y - 1) % m == 0 {
            vstd::arithmetic::div_mod::lemma_mod_twice(y - 1, m);
            lemma_distinct_residues(y % m, 1, m);
        }
        if g % m != 0 {
            lemma_no_zero_divisors::<F>(y - 1, g);
        }
        assert(ni * 0 == 0);
        lemma_cancel::<F>(ni, sv, 0);
    }
}

} // verus!
