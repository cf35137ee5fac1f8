//! Utility functions for polynomial operations and scalar arithmetic.

use vstd::arithmetic::power::{lemma_pow0, lemma_pow1, lemma_pow_adds, lemma_pow_multiplies, pow};
use vstd::prelude::*;
use crate::group::{Field, values};
use crate::modular::{
    eqm, group_mod, lemma_eqm_mul, lemma_eqm_pow, lemma_md_range, lemma_md_small, lemma_pow_next, md,
};
use crate::sums::{dot, lemma_sum_add, lemma_sum_ext, lemma_sum_scale, lemma_sum_split, sum};

verus! {

broadcast use group_mod;

/// Represents a degree-1 vector polynomial `a + b * x`.
pub struct VecPoly1<F: Field>(pub Vec<F>, pub Vec<F>);

/// Represents a degree-3 vector polynomial `a + b * x + c * x^2 + d * x^3`.
pub struct VecPoly3<F: Field>(pub Vec<F>, pub Vec<F>, pub Vec<F>, pub Vec<F>);

/// Represents a degree-2 scalar polynomial `a + b * x + c * x^2`.
pub struct Poly2<F: Field>(pub F, pub F, pub F);

/// Represents a degree-6 scalar polynomial (without zeroth degree).
pub struct Poly6<F: Field> {
    pub t1: F,
    pub t2: F,
    pub t3: F,
    pub t4: F,
    pub t5: F,
    pub t6: F,
}

/// Hands out the powers of a scalar: `1, x, x^2, x^3, ...`
pub struct ScalarExp<F: Field> {
    x: F,
    next_exp_x: F,
}

impl<F: Field> ScalarExp<F> {
    /// The residue that comes after `i` others.
    pub closed spec fn upcoming(self, i: nat) -> int {
        md(self.next_exp_x.value() * pow(self.x.value(), i), F::modulus())
    }

    /// The next power; there is always one.
    pub fn next(&mut self) -> (r: Option<F>)
        ensures
            r matches Some(y) && y.value() == old(self).upcoming(0),
            forall|i: nat| #[trigger] final(self).upcoming(i) == old(self).upcoming(i + 1),
    {
        let exp_x = self.next_exp_x;
        self.next_exp_x = self.next_exp_x.times(self.x);
        proof {
            let q = F::modulus();
            let x = self.x.value();
            let e = exp_x.value();
            F::modulus_range();
            self.x.value_range();
            exp_x.value_range();
            lemma_pow0(x);
            assert(e * 1 == e);
            assert forall|i: nat| #[trigger] self.upcoming(i) == old(self).upcoming(i + 1) by {
                lemma_pow_next(x, i as int);
                let p = pow(x, i);
                assert(e * (x * p) == (e * x) * p) by (nonlinear_arith);
                lemma_md_range(e * x, q);
                lemma_eqm_mul(md(e * x, q), e * x, p, p, q);
            }
        }
        Some(exp_x)
    }
}

/// Returns the source of the powers of `x`.
pub fn exp_iter<F: Field>(x: F) -> (r: ScalarExp<F>)
    ensures
        forall|i: nat| #[trigger] r.upcoming(i) == md(pow(x.value(), i), F::modulus()),
{
    let next_exp_x = F::one();
    proof {
        assert forall|i: nat| md(1 * pow(x.value(), i), F::modulus()) == md(pow(x.value(), i), F::modulus()) by {}
    }
    ScalarExp { x, next_exp_x }
}

/// The first `n` powers of a residue.
pub open spec fn powers_of(x: int, n: int, q: int) -> Seq<int> {
    Seq::new(n as nat, |i: int| md(pow(x, i as nat), q))
}

/// The first `n` powers of `x`.
pub fn exp_vec<F: Field>(x: F, n: usize) -> (r: Vec<F>)
    ensures
        values(r@) == powers_of(x.value(), n as int, F::modulus()),
{
    let mut out: Vec<F> = Vec::new();
    let mut iter = exp_iter(x);
    let mut i: usize = 0;
    while i < n
        invariant
            i <= n,
            out@.len() == i,
            forall|j: int| 0 <= j < i ==> (#[trigger] out@[j]).value() == md(pow(x.value(), j as nat), F::modulus()),
            forall|j: nat| #[trigger] iter.upcoming(j) == md(pow(x.value(), j + i as nat), F::modulus()),
        decreases n - i,
    {
        let ghost before = iter;
        match iter.next() {
            Some(p) => out.push(p),
            None => {},
        }
        i += 1;
        proof {
            assert forall|j: nat| #[trigger] iter.upcoming(j) == md(pow(x.value(), j + i as nat), F::modulus()) by {
                assert(iter.upcoming(j) == before.upcoming(j + 1));
            }
        }
    }
    assert(values(out@) =~= powers_of(x.value(), n as int, F::modulus()));
    out
}

/// Computes an inner product of two vectors.
pub fn inner_product<F: Field>(a: &[F], b: &[F]) -> (r: F)
    requires
        a@.len() == b@.len(),
    ensures
        r.value() == md(dot(values(a@), values(b@)), F::modulus()),
{
    let mut out = F::zero();
    let ghost q = F::modulus();
    let ghost f = |j: int| values(a@)[j] * values(b@)[j];
    proof {
        F::modulus_range();
        lemma_md_small(0, q);
    }
    let mut i: usize = 0;
    while i < a.len()
        invariant
            i <= a@.len() == b@.len(),
            q == F::modulus(),
            q > 1,
            f == |j: int| values(a@)[j] * values(b@)[j],
            out.value() == md(sum(i as int, f), q),
        decreases a@.len() - i,
    {
        proof {
            a@[i as int].value_range();
            b@[i as int].value_range();
        }
        out = out.plus(a[i].times(b[i]));
        i += 1;
    }
    out
}

/// Adds two vectors entry by entry.
pub fn add_vec<F: Field>(a: &[F], b: &[F]) -> (r: Vec<F>)
    requires
        a@.len() == b@.len(),
    ensures
        r@.len() == a@.len(),
        forall|i: int|
            0 <= i < a@.len() ==> (#[trigger] r@[i]).value() == md(a@[i].value() + b@[i].value(), F::modulus()),
{
    let mut out: Vec<F> = Vec::new();
    let mut i: usize = 0;
    while i < a.len()
        invariant
            i <= a@.len() == b@.len(),
            out@.len() == i,
            forall|j: int|
                0 <= j < i ==> (#[trigger] out@[j]).value() == md(a@[j].value() + b@[j].value(), F::modulus()),
        decreases a@.len() - i,
    {
        proof {
            F::modulus_range();
            a@[i as int].value_range();
            b@[i as int].value_range();
        }
        out.push(a[i].plus(b[i]));
        i += 1;
    }
    out
}

/// A vector of `n` zeros.
pub fn zero_vec<F: Field>(n: usize) -> (r: Vec<F>)
    ensures
        r@.len() == n,
        forall|i: int| 0 <= i < n ==> (#[trigger] r@[i]).value() == 0,
{
    let mut out: Vec<F> = Vec::new();
    let mut i: usize = 0;
    while i < n
        invariant
            i <= n,
            out@.len() == i,
            forall|j: int| 0 <= j < i ==> (#[trigger] out@[j]).value() == 0,
        decreases n - i,
    {
        out.push(F::zero());
        i += 1;
    }
    out
}

impl<F: Field> VecPoly1<F> {
    /// The coefficients of the `i`th entry, evaluated at `x`.
    pub open spec fn at(self, i: int, x: int) -> int {
        self.0@[i].value() + self.1@[i].value() * x
    }

    /// The values of all entries at `x`.
    pub open spec fn evaluated(self, x: int) -> Seq<int> {
        Seq::new(self.0@.len(), |i: int| md(self.at(i, x), F::modulus()))
    }

    /// The coefficients of `t` are those of the inner product of two vector
    /// polynomials.
    pub open spec fn product_is(self, rhs: Self, t: Poly2<F>) -> bool {
        let q = F::modulus();
        let (l0, l1) = (values(self.0@), values(self.1@));
        let (r0, r1) = (values(rhs.0@), values(rhs.1@));
        &&& t.0.value() == md(dot(l0, r0), q)
        &&& t.1.value() == md(dot(l0, r1) + dot(l1, r0), q)
        &&& t.2.value() == md(dot(l1, r1), q)
    }

    pub fn zero(n: usize) -> (r: Self)
        ensures
            r.0@.len() == n,
            r.1@.len() == n,
            forall|i: int| 0 <= i < n ==> (#[trigger] r.0@[i]).value() == 0,
            forall|i: int| 0 <= i < n ==> (#[trigger] r.1@[i]).value() == 0,
    {
        VecPoly1(zero_vec(n), zero_vec(n))
    }

    /// The polynomial of the inner products.
    pub fn inner_product(&self, rhs: &VecPoly1<F>) -> (r: Poly2<F>)
        requires
            self.0@.len() == self.1@.len() == rhs.0@.len() == rhs.1@.len(),
        ensures
            self.product_is(*rhs, r),
    {
        let l = self;
        let r = rhs;
        let t0 = inner_product(&l.0, &r.0);
        let t2 = inner_product(&l.1, &r.1);
        let l0_plus_l1 = add_vec(&l.0, &l.1);
        let r0_plus_r1 = add_vec(&r.0, &r.1);
        let t1 = inner_product(&l0_plus_l1, &r0_plus_r1).minus(t0).minus(t2);
        proof {
            F::modulus_range();
            lemma_cross_product(
                values(l.0@),
                values(l.1@),
                values(r.0@),
                values(r.1@),
                values(l0_plus_l1@),
                values(r0_plus_r1@),
                F::modulus(),
            );
        }
        Poly2(t0, t1, t2)
    }

    pub fn eval(&self, x: F) -> (r: Vec<F>)
        requires
            self.0@.len() == self.1@.len(),
        ensures
            r@.len() == self.0@.len(),
            forall|i: int|
                0 <= i < r@.len() ==> (#[trigger] r@[i]).value() == md(self.at(i, x.value()), F::modulus()),
            values(r@) == self.evaluated(x.value()),
    {
        let n = self.0.len();
        let mut out: Vec<F> = Vec::new();
        let mut i: usize = 0;
        while i < n
            invariant
                i <= n == self.0@.len() == self.1@.len(),
                out@.len() == i,
                forall|j: int|
                    0 <= j < i ==> (#[trigger] out@[j]).value() == md(self.at(j, x.value()), F::modulus()),
            decreases n - i,
        {
            proof {
                F::modulus_range();
                self.0@[i as int].value_range();
                self.1@[i as int].value_range();
                x.value_range();
            }
            out.push(self.0[i].plus(self.1[i].times(x)));
            i += 1;
        }
        out
    }
}

/// `(l0 + l1)(r0 + r1) - l0 r0 - l1 r1 = l0 r1 + l1 r0` for inner products.
proof fn lemma_cross_product(
    l0: Seq<int>,
    l1: Seq<int>,
    r0: Seq<int>,
    r1: Seq<int>,
    l: Seq<int>,
    r: Seq<int>,
    q: int,
)
    requires
        q > 1,
        l0.len() == l1.len() == r0.len() == r1.len() == l.len() == r.len(),
        forall|i: int| 0 <= i < l.len() ==> #[trigger] l[i] == md(l0[i] + l1[i], q),
        forall|i: int| 0 <= i < l.len() ==> #[trigger] r[i] == md(r0[i] + r1[i], q),
    ensures
        eqm(dot(l, r) - dot(l0, r0) - dot(l1, r1), dot(l0, r1) + dot(l1, r0), q),
{
    let n = l.len() as int;
    let f = |i: int| l[i] * r[i];
    let g = |i: int| (l0[i] + l1[i]) * (r0[i] + r1[i]);
    assert forall|i: int| 0 <= i < n implies eqm(#[trigger] f(i), g(i), q) by {
        lemma_md_range(l0[i] + l1[i], q);
        lemma_md_range(r0[i] + r1[i], q);
        lemma_eqm_mul(l[i], l0[i] + l1[i], r[i], r0[i] + r1[i], q);
    }
    crate::modular::lemma_eqm_sum(n, f, g, q);
    let a = |i: int| l0[i] * r0[i];
    let b = |i: int| l0[i] * r1[i];
    let c = |i: int| l1[i] * r0[i];
    let d = |i: int| l1[i] * r1[i];
    let ab = |i: int| a(i) + b(i);
    let cd = |i: int| c(i) + d(i);
    lemma_sum_add(n, a, b);
    lemma_sum_add(n, c, d);
    lemma_sum_add(n, ab, cd);
    assert forall|i: int| 0 <= i < n implies #[trigger] g(i) == ab(i) + cd(i) by {
        let (w, x, y, z) = (l0[i], l1[i], r0[i], r1[i]);
        assert((w + x) * (y + z) == w * y + w * z + (x * y + x * z)) by (nonlinear_arith);
    }
    lemma_sum_ext(n, g, |i: int| ab(i) + cd(i));
    crate::modular::lemma_eqm_sub(sum(n, f), sum(n, g), sum(n, a), sum(n, a), q);
    crate::modular::lemma_eqm_sub(sum(n, f) - sum(n, a), sum(n, g) - sum(n, a), sum(n, d), sum(n, d), q);
}

impl<F: Field> VecPoly3<F> {
    /// The coefficients of the `i`th entry, evaluated at `x`.
    pub open spec fn at(self, i: int, x: int) -> int {
        self.0@[i].value() + x * (self.1@[i].value() + x * (self.2@[i].value() + x * self.3@[i].value()))
    }

    /// The values of all entries at `x`.
    pub open spec fn evaluated(self, x: int) -> Seq<int> {
        Seq::new(self.0@.len(), |i: int| md(self.at(i, x), F::modulus()))
    }

    /// The coefficients of `t` are those of the inner product of two vector
    /// polynomials of which the first has no constant coefficient and the
    /// second no quadratic one.
    pub open spec fn special_product_is(self, rhs: Self, t: Poly6<F>) -> bool {
        let q = F::modulus();
        let (l1, l2, l3) = (values(self.1@), values(self.2@), values(self.3@));
        let (r0, r1, r3) = (values(rhs.0@), values(rhs.1@), values(rhs.3@));
        &&& t.t1.value() == md(dot(l1, r0), q)
        &&& t.t2.value() == md(dot(l1, r1) + dot(l2, r0), q)
        &&& t.t3.value() == md(dot(l2, r1) + dot(l3, r0), q)
        &&& t.t4.value() == md(dot(l1, r3) + dot(l3, r1), q)
        &&& t.t5.value() == md(dot(l2, r3), q)
        &&& t.t6.value() == md(dot(l3, r3), q)
    }

    /// All four coefficient vectors have `n` entries.
    pub open spec fn has_len(self, n: int) -> bool {
        self.0@.len() == n && self.1@.len() == n && self.2@.len() == n && self.3@.len() == n
    }

    pub fn zero(n: usize) -> (r: Self)
        ensures
            r.has_len(n as int),
            forall|i: int| 0 <= i < n ==> (#[trigger] r.0@[i]).value() == 0,
            forall|i: int| 0 <= i < n ==> (#[trigger] r.1@[i]).value() == 0,
            forall|i: int| 0 <= i < n ==> (#[trigger] r.2@[i]).value() == 0,
            forall|i: int| 0 <= i < n ==> (#[trigger] r.3@[i]).value() == 0,
    {
        VecPoly3(zero_vec(n), zero_vec(n), zero_vec(n), zero_vec(n))
    }

    /// The inner product of two polynomials of which `lhs` has no constant
    /// coefficient and `rhs` no quadratic one.
    pub fn special_inner_product(lhs: &Self, rhs: &Self) -> (r: Poly6<F>)
        requires
            lhs.1@.len() == lhs.2@.len() == lhs.3@.len(),
            rhs.0@.len() == rhs.1@.len() == rhs.3@.len() == lhs.1@.len(),
        ensures
            lhs.special_product_is(*rhs, r),
    {
        proof {
            F::modulus_range();
        }
        let t1 = inner_product(&lhs.1, &rhs.0);
        let t2 = inner_product(&lhs.1, &rhs.1).plus(inner_product(&lhs.2, &rhs.0));
        let t3 = inner_product(&lhs.2, &rhs.1).plus(inner_product(&lhs.3, &rhs.0));
        let t4 = inner_product(&lhs.1, &rhs.3).plus(inner_product(&lhs.3, &rhs.1));
        let t5 = inner_product(&lhs.2, &rhs.3);
        let t6 = inner_product(&lhs.3, &rhs.3);
        Poly6 { t1, t2, t3, t4, t5, t6 }
    }

    pub fn eval(&self, x: F) -> (r: Vec<F>)
        requires
            self.has_len(self.0@.len() as int),
        ensures
            r@.len() == self.0@.len(),
            forall|i: int|
                0 <= i < r@.len() ==> (#[trigger] r@[i]).value() == md(self.at(i, x.value()), F::modulus()),
            values(r@) == self.evaluated(x.value()),
    {
        let n = self.0.len();
        let mut out: Vec<F> = Vec::new();
        let mut i: usize = 0;
        while i < n
            invariant
                i <= n == self.0@.len(),
                self.has_len(n as int),
                out@.len() == i,
                forall|j: int|
                    0 <= j < i ==> (#[trigger] out@[j]).value() == md(self.at(j, x.value()), F::modulus()),
            decreases n - i,
        {
            proof {
                F::modulus_range();
                self.0@[i as int].value_range();
                self.1@[i as int].value_range();
                self.2@[i as int].value_range();
                self.3@[i as int].value_range();
                x.value_range();
            }
            out.push(
                self.0[i].plus(x.times(self.1[i].plus(x.times(self.2[i].plus(x.times(self.3[i])))))),
            );
            i += 1;
        }
        out
    }
}

impl<F: Field> Poly2<F> {
    /// The value of the polynomial at `x`, before reduction.
    pub open spec fn at(self, x: int) -> int {
        self.0.value() + x * (self.1.value() + x * self.2.value())
    }

    pub fn eval(&self, x: F) -> (r: F)
        ensures
            r.value() == md(self.at(x.value()), F::modulus()),
    {
        proof {
            F::modulus_range();
            self.0.value_range();
            self.1.value_range();
            self.2.value_range();
            x.value_range();
        }
        self.0.plus(x.times(self.1.plus(x.times(self.2))))
    }
}

impl<F: Field> Poly6<F> {
    /// The value of the polynomial at `x`, before reduction.
    pub open spec fn at(self, x: int) -> int {
        x * (self.t1.value() + x * (self.t2.value() + x * (self.t3.value() + x * (self.t4.value() + x * (
        self.t5.value() + x * self.t6.value())))))
    }

    pub fn eval(&self, x: F) -> (r: F)
        ensures
            r.value() == md(self.at(x.value()), F::modulus()),
    {
        proof {
            F::modulus_range();
            self.t1.value_range();
            self.t2.value_range();
            self.t3.value_range();
            self.t4.value_range();
            self.t5.value_range();
            self.t6.value_range();
            x.value_range();
        }
        x.times(
            self.t1.plus(
                x.times(
                    self.t2.plus(
                        x.times(self.t3.plus(x.times(self.t4.plus(x.times(self.t5.plus(x.times(self.t6))))))),
                    ),
                ),
            ),
        )
    }
}

/// Raises `x` to the power `n` using binary exponentiation.
pub fn scalar_exp_vartime<F: Field>(x: &F, n: u64) -> (r: F)
    ensures
        r.value() == md(pow(x.value(), n as nat), F::modulus()),
{
    let ghost q = F::modulus();
    let ghost target = md(pow(x.value(), n as nat), q);
    let mut n: u64 = n;
    let mut result = F::one();
    let mut aux = *x;
    proof {
        F::modulus_range();
        assert(1 * pow(x.value(), n as nat) == pow(x.value(), n as nat));
    }
    while n > 0
        invariant
            q == F::modulus(),
            q > 1,
            md(result.value() * pow(aux.value(), n as nat), q) == target,
        decreases n,
    {
        let ghost (r0, a0, n0) = (result.value(), aux.value(), n as int);
        proof {
            result.value_range();
            aux.value_range();
            assert(n & 1 == n % 2) by (bit_vector);
            assert(n >> 1 == n / 2) by (bit_vector);
            let h = n0 / 2;
            lemma_pow_multiplies(a0, 2, h as nat);
            lemma_pow_square(a0);
            if n0 % 2 == 1 {
                lemma_pow_next(a0, n0 - 1);
                assert(n0 - 1 == 2 * h);
                let p = pow(a0, (2 * h) as nat);
                assert(r0 * (a0 * p) == (r0 * a0) * p) by (nonlinear_arith);
            } else {
                assert(n0 == 2 * h);
            }
        }
        if n & 1 == 1 {
            result = result.times(aux);
        }
        n >>= 1;
        aux = aux.times(aux);
        proof {
            let h = n0 / 2;
            let p = pow(a0 * a0, h as nat);
            lemma_md_range(a0 * a0, q);
            lemma_eqm_pow(aux.value(), a0 * a0, h, q);
            let r1 = if n0 % 2 == 1 { r0 * a0 } else { r0 };
            lemma_md_range(r1, q);
            lemma_eqm_mul(result.value(), r1, pow(aux.value(), h as nat), p, q);
        }
    }
    proof {
        lemma_pow0(aux.value());
        result.value_range();
        assert(result.value() * 1 == result.value());
    }
    result
}

proof fn lemma_pow_square(a: int)
    ensures
        pow(a, 2) == a * a,
{
    lemma_pow1(a);
    lemma_pow_next(a, 1);
}

/// `1 + x + .. + x^(n - 1)`.
pub open spec fn power_sum(x: int, n: int) -> int {
    sum(n, |i: int| pow(x, i as nat))
}

/// `usize::is_power_of_two` tells whether the number is `2^e` for some `e`.
pub assume_specification[ usize::is_power_of_two ](n: usize) -> (r: bool)
    ensures
        r == exists|e: nat| n as int == pow(2, e),
;

/// The powers up to `2n` are those up to `n` and their products with `x^n`.
proof fn lemma_power_sum_double(x: int, n: int)
    requires
        n >= 0,
    ensures
        power_sum(x, 2 * n) == power_sum(x, n) + pow(x, n as nat) * power_sum(x, n),
{
    let f = |i: int| pow(x, i as nat);
    lemma_sum_split(n, n, f);
    lemma_sum_scale(n, pow(x, n as nat), f);
    assert forall|i: int| 0 <= i < n implies f(n + i) == #[trigger] f(i) * pow(x, n as nat) by {
        lemma_pow_adds(x, n as nat, i as nat);
        assert(pow(x, n as nat) * f(i) == f(i) * pow(x, n as nat)) by (nonlinear_arith);
    }
    let shifted = |i: int| f(n + i);
    let scaled = |i: int| pow(x, n as nat) * f(i);
    assert forall|i: int| 0 <= i < n implies #[trigger] shifted(i) == scaled(i) by {
        let (u, v) = (f(i), pow(x, n as nat));
        assert(u * v == v * u) by (nonlinear_arith);
        assert(f(n + i) == f(i) * pow(x, n as nat));
    }
    lemma_sum_ext(n, shifted, scaled);
    lemma_sum_ext(n, |i: int| f(n + i), shifted);
    assert(n + n == 2 * n);
}

/// Takes the sum of all the powers of `x`, up to `n`.
pub fn sum_of_powers<F: Field>(x: &F, n: usize) -> (r: F)
    ensures
        r.value() == md(power_sum(x.value(), n as int), F::modulus()),
{
    let ghost q = F::modulus();
    let ghost xv = x.value();
    proof {
        F::modulus_range();
        x.value_range();
    }
    if !n.is_power_of_two() {
        return sum_of_powers_slow(x, n);
    }
    let ghost f = |i: int| pow(xv, i as nat);
    proof {
        lemma_pow0(xv);
        lemma_pow1(xv);
        assert(sum(1, f) == sum(0, f) + f(0));
        assert(sum(2, f) == sum(1, f) + f(1));
        lemma_md_small(1, q);
    }
    if n == 0 || n == 1 {
        return F::from_u64(n as u64);
    }
    let mut m = n;
    let mut result = F::one().plus(*x);
    let mut factor = *x;
    let ghost mut done: int = 2;
    let ghost mut e: nat = choose|e: nat| n as int == pow(2, e);
    proof {
        lemma_pow0(2);
        assert(e > 0);
        lemma_pow_next(2, e - 1);
        assert(2 * (n as int / 2) == n);
    }
    while m > 2
        invariant
            q == F::modulus(),
            q > 1,
            xv == x.value(),
            m >= 2,
            e > 0,
            m as int == pow(2, e),
            done >= 2,
            done * m == 2 * n,
            done % 2 == 0,
            factor.value() == md(pow(xv, (done / 2) as nat), q),
            result.value() == md(power_sum(xv, done), q),
        decreases m,
    {
        proof {
            lemma_pow_next(2, e - 1);
            lemma_pow0(2);
            assert(e > 1);
            let h = (done / 2) as nat;
            lemma_pow_adds(xv, h, h);
            lemma_power_sum_double(xv, done);
            assert((2 * done) * (m as int / 2) == done * m) by (nonlinear_arith)
                requires
                    m as int == 2 * (m as int / 2),
            ;
        }
        factor = factor.times(factor);
        result = result.plus(factor.times(result));
        m /= 2;
        proof {
            e = (e - 1) as nat;
            done = 2 * done;
        }
    }
    proof {
        assert(m == 2);
        assert(done == n);
    }
    result
}

fn sum_of_powers_slow<F: Field>(x: &F, n: usize) -> (r: F)
    ensures
        r.value() == md(power_sum(x.value(), n as int), F::modulus()),
{
    let ghost q = F::modulus();
    let ghost f = |i: int| pow(x.value(), i as nat);
    let mut iter = exp_iter(*x);
    let mut acc = F::zero();
    proof {
        F::modulus_range();
        lemma_md_small(0, q);
    }
    let mut i: usize = 0;
    while i < n
        invariant
            i <= n,
            q == F::modulus(),
            q > 1,
            f == |i: int| pow(x.value(), i as nat),
            acc.value() == md(sum(i as int, f), q),
            forall|j: nat| #[trigger] iter.upcoming(j) == md(pow(x.value(), j + i as nat), q),
        decreases n - i,
    {
        let ghost before = iter;
        match iter.next() {
            Some(p) => {
                acc = acc.plus(p);
            },
            None => {},
        }
        i += 1;
        proof {
            assert forall|j: nat| #[trigger] iter.upcoming(j) == md(pow(x.value(), j + i as nat), q) by {
                assert(iter.upcoming(j) == before.upcoming(j + 1));
            }
        }
    }
    acc
}

/// Given `data` of at least 32 bytes, returns the first 32 bytes.
pub fn read32(data: &[u8]) -> (r: [u8; 32])
    requires
        data@.len() >= 32,
    ensures
        r@ == data@.take(32),
{
    let mut buf32: [u8; 32] = [0u8; 32];
    let mut i: usize = 0;
    while i < 32
        invariant
            i <= 32,
            data@.len() >= 32,
            forall|j: int| 0 <= j < i ==> buf32@[j] == data@[j],
        decreases 32 - i,
    {
        buf32[i] = data[i];
        i += 1;
    }
    buf32
}

} // verus!
