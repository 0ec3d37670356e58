use vstd::arithmetic::div_mod::{
    lemma_add_mod_noop, lemma_mod_twice, lemma_mul_mod_noop_left, lemma_small_mod,
};
use vstd::arithmetic::mul::lemma_mul_is_commutative;
use vstd::arithmetic::power::pow;
use vstd::prelude::*;

use crate::backend::FieldElement;

verus! {

/// A univariate polynomial in coefficient form, lowest degree first.
#[derive(Clone, Debug)]
pub struct DensePolynomial<F: FieldElement> {
    pub coeffs: Vec<F>,
}

/// The integer values of a sequence of field elements.
pub open spec fn vals<F: FieldElement>(s: Seq<F>) -> Seq<int> {
    s.map_values(|c: F| c.val())
}

/// Coefficient `i`, zero past the end.
pub open spec fn coef(c: Seq<int>, i: int) -> int {
    if 0 <= i < c.len() {
        c[i]
    } else {
        0
    }
}

/// `sum_{i < k} c_i x^i` over the integers.
pub open spec fn eval_upto(c: Seq<int>, x: int, k: nat) -> int
    decreases k,
{
    if k == 0 {
        0
    } else {
        eval_upto(c, x, (k - 1) as nat) + coef(c, k - 1) * pow(x, (k - 1) as nat)
    }
}

/// The value of the polynomial with coefficients `c` at `x`, over the integers.
pub open spec fn poly_eval(c: Seq<int>, x: int) -> int {
    eval_upto(c, x, c.len())
}

/// Index of the last nonzero among the first `k` coefficients; zero if none.
pub open spec fn degree_upto(c: Seq<int>, k: nat) -> nat
    decreases k,
{
    if k == 0 {
        0
    } else if coef(c, k - 1) != 0 {
        (k - 1) as nat
    } else {
        degree_upto(c, (k - 1) as nat)
    }
}

/// Degree of the polynomial (zero for the zero polynomial).
pub open spec fn poly_degree(c: Seq<int>) -> nat {
    degree_upto(c, c.len())
}

/// Number of coefficients that a commitment has to cover: `degree + 1`, or
/// nothing for an empty coefficient list.
pub open spec fn support_len(c: Seq<int>) -> nat {
    if c.len() == 0 {
        0
    } else {
        poly_degree(c) + 1
    }
}

pub proof fn lemma_degree_upto(c: Seq<int>, k: nat)
    requires
        k <= c.len(),
    ensures
        k > 0 ==> degree_upto(c, k) < k,
        forall|j: int| degree_upto(c, k) < j < k ==> c[j] == 0,
    decreases k,
{
    if k > 0 && coef(c, k - 1) == 0 {
        lemma_degree_upto(c, (k - 1) as nat);
        assert(degree_upto(c, 0) == 0);
    }
}

/// Coefficients past `k` that are all zero do not change the value.
pub proof fn lemma_eval_zero_tail(c: Seq<int>, x: int, k: nat, n: nat)
    requires
        k <= n,
        forall|j: int| k <= j < n ==> coef(c, j) == 0,
    ensures
        eval_upto(c, x, n) == eval_upto(c, x, k),
    decreases n,
{
    if n > k {
        lemma_eval_zero_tail(c, x, k, (n - 1) as nat);
    }
}

/// Evaluating past the last coefficient adds nothing.
pub proof fn lemma_eval_past_end(c: Seq<int>, x: int, n: nat)
    requires
        c.len() <= n,
    ensures
        eval_upto(c, x, n) == poly_eval(c, x),
{
    lemma_eval_zero_tail(c, x, c.len(), n);
}

/// The prefix up to the degree carries the whole value.
pub proof fn lemma_eval_support(c: Seq<int>, x: int)
    ensures
        eval_upto(c, x, support_len(c)) == poly_eval(c, x),
        support_len(c) <= c.len(),
{
    if c.len() > 0 {
        lemma_degree_upto(c, c.len());
        lemma_eval_zero_tail(c, x, support_len(c), c.len());
    }
}

/// One step of an accumulation modulo `m`: reducing either summand, or the
/// first factor of the product, first does not change the result.
pub proof fn lemma_mod_mul_add(a: int, b: int, c: int, m: int)
    requires
        m > 0,
    ensures
        ((a % m) + ((b % m) * c) % m) % m == (a + b * c) % m,
{
    lemma_mul_mod_noop_left(b, c, m);
    lemma_add_mod_noop(a, b * c, m);
    lemma_mod_twice(b * c, m);
    lemma_add_mod_noop(a % m, (b * c) % m, m);
    lemma_mod_twice(a, m);
}

/// `(x^i mod m) * x mod m == x^(i+1) mod m`.
pub proof fn lemma_pow_mod_step(x: int, i: nat, m: int)
    requires
        m > 0,
    ensures
        ((pow(x, i) % m) * x) % m == pow(x, i + 1) % m,
{
    lemma_mul_mod_noop_left(pow(x, i), x, m);
    reveal(pow);
    assert(pow(x, i + 1) == x * pow(x, (i + 1 - 1) as nat));
    lemma_mul_is_commutative(x, pow(x, i));
}

/// A canonical value is its own residue.
pub proof fn lemma_canonical_mod(v: int, m: int)
    requires
        0 <= v < m,
    ensures
        v % m == v,
{
    lemma_small_mod(v as nat, m as nat);
}

/// `sum_{j < t} a_j * b_(k - j)`.
pub open spec fn conv_sum(a: Seq<int>, b: Seq<int>, k: int, t: nat) -> int
    decreases t,
{
    if t == 0 {
        0
    } else {
        conv_sum(a, b, k, (t - 1) as nat) + coef(a, t - 1) * coef(b, k - (t - 1))
    }
}

/// Coefficients of the product `a * b`.
pub open spec fn poly_mul(a: Seq<int>, b: Seq<int>) -> Seq<int> {
    Seq::new((a.len() + b.len() - 1) as nat, |k: int| conv_sum(a, b, k, (k + 1) as nat))
}

/// Quotient of `p` by the vanishing polynomial `X^n - 1` of the domain of
/// size `n`, for `p` of degree below `2n`: the coefficients from `n` upward.
pub open spec fn vanishing_quotient(p: Seq<int>, n: nat) -> Seq<int> {
    if p.len() <= n {
        Seq::empty()
    } else {
        p.subrange(n as int, p.len() as int)
    }
}

/// Coefficients of `X * p`.
pub open spec fn shift_up(p: Seq<int>) -> Seq<int> {
    seq![0int] + p
}

/// Coefficients of `p - p(0)`.
pub open spec fn drop_constant(p: Seq<int>) -> Seq<int> {
    if p.len() == 0 {
        p
    } else {
        p.update(0, 0)
    }
}

/// Coefficients of `a - b`, over the longer of the two lengths.
pub open spec fn poly_sub(a: Seq<int>, b: Seq<int>) -> Seq<int> {
    Seq::new(
        if a.len() >= b.len() {
            a.len()
        } else {
            b.len()
        },
        |k: int| coef(a, k) - coef(b, k),
    )
}

/// Coefficients of `a * p + b * q`, over the longer of the two lengths.
pub open spec fn lin_comb(p: Seq<int>, a: int, q: Seq<int>, b: int) -> Seq<int> {
    Seq::new(
        if p.len() >= q.len() {
            p.len()
        } else {
            q.len()
        },
        |k: int| a * coef(p, k) + b * coef(q, k),
    )
}

/// Every coefficient reduced modulo `m`.
pub open spec fn reduce(p: Seq<int>, m: int) -> Seq<int> {
    p.map_values(|c: int| c % m)
}

impl<F: FieldElement> DensePolynomial<F> {
    pub open spec fn view(&self) -> Seq<int> {
        vals(self.coeffs@)
    }

    pub fn from_coefficients_vec(coeffs: Vec<F>) -> (r: Self)
        ensures
            r.coeffs@ == coeffs@,
    {
        DensePolynomial { coeffs }
    }

    /// The product `self * other`; the zero polynomial if either has no coefficients.
    pub fn mul(&self, other: &Self) -> (r: Self)
        requires
            self.coeffs@.len() + other.coeffs@.len() <= usize::MAX,
        ensures
            self.coeffs@.len() > 0 && other.coeffs@.len() > 0 ==> r@ == reduce(
                poly_mul(self@, other@),
                F::modulus(),
            ),
            self.coeffs@.len() == 0 || other.coeffs@.len() == 0 ==> r@.len() == 0,
    {
        let la = self.coeffs.len();
        let lb = other.coeffs.len();
        let mut out: Vec<F> = Vec::new();
        if la == 0 || lb == 0 {
            return DensePolynomial { coeffs: out };
        }
        let ghost m = F::modulus();
        let ghost a = self@;
        let ghost b = other@;
        proof {
            F::lemma_modulus();
        }
        let len = la + lb - 1;
        let mut k: usize = 0;
        while k < len
            invariant
                m == F::modulus(),
                m > 1,
                a == self@,
                b == other@,
                la == a.len(),
                lb == b.len(),
                len == la + lb - 1,
                k <= len,
                out@.len() == k,
                forall|q: int| 0 <= q < k ==> #[trigger] out@[q].val() == conv_sum(a, b, q, (q + 1) as nat) % m,
            decreases len - k,
        {
            let mut acc = F::zero();
            let mut j: usize = 0;
            proof {
                lemma_canonical_mod(0, m);
            }
            while j <= k
                invariant
                    m == F::modulus(),
                    m > 1,
                    a == self@,
                    b == other@,
                    la == a.len(),
                    lb == b.len(),
                    k < len,
                    len == la + lb - 1,
                    j <= k + 1,
                    acc.val() == conv_sum(a, b, k as int, j as nat) % m,
                decreases k + 1 - j,
            {
                if j < la && k - j < lb {
                    let term = self.coeffs[j].mul(&other.coeffs[k - j]);
                    proof {
                        assert(coef(a, j as int) == self.coeffs@[j as int].val());
                        assert(coef(b, k - j) == other.coeffs@[k - j].val());
                        vstd::arithmetic::div_mod::lemma_add_mod_noop(
                            conv_sum(a, b, k as int, j as nat),
                            coef(a, j as int) * coef(b, k - j),
                            m,
                        );
                        lemma_mod_twice(conv_sum(a, b, k as int, j as nat), m);
                        lemma_mod_twice(coef(a, j as int) * coef(b, k - j), m);
                    }
                    acc = acc.add(&term);
                } else {
                    proof {
                        assert(coef(a, j as int) == 0 || coef(b, k - j) == 0);
                        assert(coef(a, j as int) * coef(b, k - j) == 0) by (nonlinear_arith)
                            requires
                                coef(a, j as int) == 0 || coef(b, k - j) == 0,
                        ;
                    }
                }
                j = j + 1;
            }
            out.push(acc);
            k = k + 1;
        }
        proof {
            assert(vals(out@) =~= reduce(poly_mul(a, b), m));
        }
        DensePolynomial { coeffs: out }
    }

    /// The difference `self - other`.
    pub fn sub(&self, other: &Self) -> (r: Self)
        ensures
            r@ == reduce(poly_sub(self@, other@), F::modulus()),
    {
        let la = self.coeffs.len();
        let lb = other.coeffs.len();
        let len = if la >= lb {
            la
        } else {
            lb
        };
        let ghost a = self@;
        let ghost b = other@;
        let zero = F::zero();
        let mut out: Vec<F> = Vec::new();
        let mut k: usize = 0;
        while k < len
            invariant
                a == self@,
                b == other@,
                la == a.len(),
                lb == b.len(),
                len == poly_sub(a, b).len(),
                zero.val() == 0,
                k <= len,
                out@.len() == k,
                forall|q: int| 0 <= q < k ==> #[trigger] out@[q].val() == (coef(a, q) - coef(b, q)) % F::modulus(),
            decreases len - k,
        {
            let x = if k < la {
                self.coeffs[k]
            } else {
                zero
            };
            let y = if k < lb {
                other.coeffs[k]
            } else {
                zero
            };
            proof {
                assert(x.val() == coef(a, k as int));
                assert(y.val() == coef(b, k as int));
            }
            out.push(x.sub(&y));
            k = k + 1;
        }
        proof {
            assert(vals(out@) =~= reduce(poly_sub(a, b), F::modulus()));
        }
        DensePolynomial { coeffs: out }
    }

    /// The combination `a * self + b * other`.
    pub fn linear_combination(&self, a: &F, other: &Self, b: &F) -> (r: Self)
        ensures
            r@ == reduce(lin_comb(self@, a.val(), other@, b.val()), F::modulus()),
    {
        let la = self.coeffs.len();
        let lb = other.coeffs.len();
        let len = if la >= lb {
            la
        } else {
            lb
        };
        let ghost p = self@;
        let ghost q = other@;
        let ghost m = F::modulus();
        proof {
            F::lemma_modulus();
        }
        let zero = F::zero();
        let mut out: Vec<F> = Vec::new();
        let mut k: usize = 0;
        while k < len
            invariant
                m == F::modulus(),
                m > 1,
                p == self@,
                q == other@,
                la == p.len(),
                lb == q.len(),
                len == lin_comb(p, a.val(), q, b.val()).len(),
                zero.val() == 0,
                k <= len,
                out@.len() == k,
                forall|i: int|
                    0 <= i < k ==> #[trigger] out@[i].val() == (a.val() * coef(p, i) + b.val()
                        * coef(q, i)) % m,
            decreases len - k,
        {
            let x = if k < la {
                self.coeffs[k]
            } else {
                zero
            };
            let y = if k < lb {
                other.coeffs[k]
            } else {
                zero
            };
            let ax = a.mul(&x);
            let by = b.mul(&y);
            proof {
                assert(x.val() == coef(p, k as int));
                assert(y.val() == coef(q, k as int));
                vstd::arithmetic::div_mod::lemma_add_mod_noop(a.val() * x.val(), b.val() * y.val(), m);
            }
            out.push(ax.add(&by));
            k = k + 1;
        }
        proof {
            assert(vals(out@) =~= reduce(lin_comb(p, a.val(), q, b.val()), m));
        }
        DensePolynomial { coeffs: out }
    }

    /// Quotient by `X^n - 1`: the coefficients from `n` upward.
    pub fn vanishing_quotient(&self, n: usize) -> (r: Self)
        ensures
            r@ == vanishing_quotient(self@, n as nat),
    {
        let len = self.coeffs.len();
        let mut out: Vec<F> = Vec::new();
        if len <= n {
            proof {
                assert(vals(out@) =~= Seq::<int>::empty());
            }
            return DensePolynomial { coeffs: out };
        }
        let mut k: usize = n;
        while k < len
            invariant
                n <= k <= len,
                len == self.coeffs@.len(),
                out@.len() == k - n,
                forall|q: int| 0 <= q < k - n ==> #[trigger] out@[q] == self.coeffs@[q + n],
            decreases len - k,
        {
            out.push(self.coeffs[k]);
            k = k + 1;
        }
        proof {
            assert(vals(out@) =~= vanishing_quotient(self@, n as nat));
        }
        DensePolynomial { coeffs: out }
    }

    /// The product `X * self`.
    pub fn shift_up(&self) -> (r: Self)
        requires
            self.coeffs@.len() < usize::MAX,
        ensures
            r@ == shift_up(self@),
    {
        let mut out: Vec<F> = Vec::new();
        out.push(F::zero());
        let len = self.coeffs.len();
        let mut k: usize = 0;
        while k < len
            invariant
                k <= len,
                len == self.coeffs@.len(),
                out@.len() == k + 1,
                out@[0].val() == 0,
                forall|q: int| 0 <= q < k ==> #[trigger] out@[q + 1] == self.coeffs@[q],
            decreases len - k,
        {
            out.push(self.coeffs[k]);
            k = k + 1;
        }
        proof {
            let sh = shift_up(self@);
            assert forall|i: int| 0 <= i < out@.len() implies #[trigger] vals(out@)[i] == sh[i] by {
                if i > 0 {
                    assert(out@[(i - 1) + 1] == self.coeffs@[i - 1]);
                }
            }
            assert(vals(out@) =~= sh);
        }
        DensePolynomial { coeffs: out }
    }

    /// `self - self(0)`: the constant coefficient cleared.
    pub fn drop_constant(&self) -> (r: Self)
        ensures
            r@ == drop_constant(self@),
    {
        let mut out: Vec<F> = Vec::new();
        let len = self.coeffs.len();
        let mut k: usize = 0;
        while k < len
            invariant
                k <= len,
                len == self.coeffs@.len(),
                out@.len() == k,
                k > 0 ==> out@[0].val() == 0,
                forall|q: int| 1 <= q < k ==> #[trigger] out@[q] == self.coeffs@[q],
            decreases len - k,
        {
            if k == 0 {
                out.push(F::zero());
            } else {
                out.push(self.coeffs[k]);
            }
            k = k + 1;
        }
        proof {
            assert(vals(out@) =~= drop_constant(self@));
        }
        DensePolynomial { coeffs: out }
    }

    /// Index of the last nonzero coefficient (zero for the zero polynomial).
    pub fn degree(&self) -> (r: usize)
        ensures
            r == poly_degree(self.view()),
    {
        let n = self.coeffs.len();
        let mut k: usize = n;
        while k > 0
            invariant
                k <= n,
                n == self.coeffs@.len(),
                poly_degree(self.view()) == degree_upto(self.view(), k as nat),
            decreases k,
        {
            if !self.coeffs[k - 1].is_zero() {
                return k - 1;
            }
            k = k - 1;
        }
        0
    }
}

} // verus!
