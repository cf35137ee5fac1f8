//! The inner product of two vector polynomials is the polynomial of their
//! inner products.

use vstd::arithmetic::power::{lemma_pow0, lemma_pow1, pow};
use vstd::prelude::*;
use crate::folding_laws::lemma_dot_symmetric;
use crate::group::{Field, values};
use crate::modular::{
    eqm, group_mod, lemma_eqm_add, lemma_eqm_mul, lemma_md_range, lemma_md_small, lemma_pow_next, md,
};
use crate::r1cs::completeness::{lemma_dot_linear, lemma_product};
use crate::r1cs::honest::{Polys, eval6, l_vec, r_vec, t_poly};
use crate::r1cs::witness::Witness;
use crate::sums::{dot, sum};
use crate::util::{Poly2, Poly6, VecPoly1, VecPoly3, power_sum, powers_of};

verus! {

broadcast use group_mod;

/// `<a, v0 + v1 x> = <a, v0> + <a, v1> x`.
proof fn lemma_against_poly1<F: Field>(a: Seq<int>, v: VecPoly1<F>, x: int)
    requires
        a.len() == v.0@.len() == v.1@.len(),
    ensures
        eqm(
            dot(a, v.evaluated(x)),
            dot(a, values(v.0@)) + x * dot(a, values(v.1@)),
            F::modulus(),
        ),
{
    let q = F::modulus();
    F::modulus_range();
    let (v0, v1, e) = (values(v.0@), values(v.1@), v.evaluated(x));
    assert forall|i: int| 0 <= i < e.len() implies eqm(
        #[trigger] e[i],
        1 * v0[i] + x * v1[i] + 0 * v0[i] + 0 * v0[i],
        q,
    ) by {
        lemma_md_range(v.at(i, x), q);
        let c = v1[i];
        assert(c * x == x * c) by (nonlinear_arith);
    }
    lemma_dot_linear(e, 1, v0, x, v1, 0, v0, 0, v0, a, q);
    lemma_dot_symmetric(a, e);
    lemma_dot_symmetric(a, v0);
    lemma_dot_symmetric(a, v1);
}

/// The polynomial that `VecPoly1::inner_product` returns has at `x` the value
/// of the inner product of the two vectors at `x`.
pub proof fn law_inner_product<F: Field>(l: VecPoly1<F>, r: VecPoly1<F>, t: Poly2<F>, x: int)
    requires
        l.0@.len() == l.1@.len() == r.0@.len() == r.1@.len(),
        l.product_is(r, t),
    ensures
        md(dot(l.evaluated(x), r.evaluated(x)), F::modulus()) == md(t.at(x), F::modulus()),
{
    let q = F::modulus();
    F::modulus_range();
    let (l0, l1) = (values(l.0@), values(l.1@));
    let (r0, r1) = (values(r.0@), values(r.1@));
    let (le, re) = (l.evaluated(x), r.evaluated(x));
    // By the left factor.
    lemma_against_poly1(re, l, x);
    lemma_dot_symmetric(le, re);
    lemma_dot_symmetric(re, l0);
    lemma_dot_symmetric(re, l1);
    // By the right factor.
    lemma_against_poly1(l0, r, x);
    lemma_against_poly1(l1, r, x);
    let (a, b, c, d) = (dot(l0, r0), dot(l0, r1), dot(l1, r0), dot(l1, r1));
    lemma_eqm_mul(x, x, dot(l1, re), c + x * d, q);
    lemma_eqm_add(dot(l0, re), a + x * b, x * dot(l1, re), x * (c + x * d), q);
    assert(a + x * b + x * (c + x * d) == a + x * (b + c + x * d)) by (nonlinear_arith);
    // The coefficients are residues.
    lemma_md_range(a, q);
    lemma_md_range(b + c, q);
    lemma_md_range(d, q);
    lemma_eqm_mul(x, x, t.2.value(), d, q);
    lemma_eqm_add(t.1.value(), b + c, x * t.2.value(), x * d, q);
    lemma_eqm_mul(x, x, t.1.value() + x * t.2.value(), b + c + x * d, q);
    lemma_eqm_add(t.0.value(), a, x * (t.1.value() + x * t.2.value()), x * (b + c + x * d), q);
}

/// The polynomial that `VecPoly3::special_inner_product` returns has at `x`
/// the value of the inner product of the two vectors at `x`, if the first has
/// no constant coefficient and the second no quadratic one.
pub proof fn law_special_inner_product<F: Field>(l: VecPoly3<F>, r: VecPoly3<F>, t: Poly6<F>, x: int)
    requires
        l.has_len(l.0@.len() as int),
        r.has_len(l.0@.len() as int),
        forall|i: int| 0 <= i < l.0@.len() ==> (#[trigger] l.0@[i]).value() == 0,
        forall|i: int| 0 <= i < r.2@.len() ==> (#[trigger] r.2@[i]).value() == 0,
        l.special_product_is(r, t),
    ensures
        md(dot(l.evaluated(x), r.evaluated(x)), F::modulus()) == md(t.at(x), F::modulus()),
{
    let q = F::modulus();
    F::modulus_range();
    let p = Polys {
        l1: values(l.1@),
        l2: values(l.2@),
        l3: values(l.3@),
        r0: values(r.0@),
        r1: values(r.1@),
        r3: values(r.3@),
    };
    let w = Witness {
        a_L: p.l1,
        a_R: p.l1,
        a_O: p.l1,
        v: p.l1,
        v_blinding: 0,
        constraints: Seq::empty(),
    };
    lemma_product(w, p, 0, x, q);
    assert(l_vec(w, p, x, q) =~= l.evaluated(x)) by {
        assert forall|i: int| 0 <= i < l.0@.len() implies l_vec(w, p, x, q)[i] == #[trigger] l.evaluated(x)[i] by {
            assert(l.0@[i].value() == 0);
        }
    }
    assert(r_vec(w, p, 0, x, q) =~= r.evaluated(x)) by {
        assert forall|i: int| 0 <= i < r.0@.len() implies r_vec(w, p, 0, x, q)[i] == #[trigger] r.evaluated(x)[i] by {
            assert(r.2@[i].value() == 0);
        }
    }
    assert(t.at(x) == eval6(t_poly(p, q), x));
}

/// The powers of `x` start with one, and each is `x` times the one before.
pub proof fn law_powers(x: int, n: int, q: int)
    requires
        q > 1,
        n >= 0,
    ensures
        powers_of(x, n, q).len() == n,
        n > 0 ==> powers_of(x, n, q)[0] == 1,
        forall|i: int|
            0 < i < n ==> #[trigger] powers_of(x, n, q)[i] == md(x * powers_of(x, n, q)[i - 1], q),
{
    let s = powers_of(x, n, q);
    lemma_pow0(x);
    lemma_md_small(1, q);
    assert forall|i: int| 0 < i < n implies #[trigger] s[i] == md(x * s[i - 1], q) by {
        lemma_pow_next(x, i - 1);
        let p = pow(x, (i - 1) as nat);
        lemma_md_range(p, q);
        lemma_eqm_mul(x, x, md(p, q), p, q);
    }
}

/// The sum of the first `n` powers is that of a geometric series.
pub proof fn law_power_sum(x: int, n: int)
    requires
        n >= 0,
    ensures
        (x - 1) * power_sum(x, n) == pow(x, n as nat) - 1,
        power_sum(x, n + 1) == 1 + x * power_sum(x, n),
    decreases n,
{
    let f = |i: int| pow(x, i as nat);
    lemma_pow0(x);
    assert(sum(0, f) == 0);
    assert(sum(n + 1, f) == sum(n, f) + f(n));
    if n > 0 {
        law_power_sum(x, n - 1);
        lemma_pow_next(x, n - 1);
        let (s, p) = (sum(n - 1, f), f(n - 1));
        assert(sum(n, f) == s + p);
        assert((x - 1) * (s + p) == (x - 1) * s + x * p - p) by (nonlinear_arith);
        lemma_pow_next(x, n);
        assert(f(n) == x * f(n - 1));
        assert(x * (s + p) == x * s + x * p) by (nonlinear_arith);
    } else {
        assert((x - 1) * 0 == 0 && x * 0 == 0) by (nonlinear_arith);
    }
}

/// The value of a polynomial is the sum of its coefficients times the powers
/// of the argument.
pub proof fn law_poly_values<F: Field>(
    u: VecPoly1<F>,
    v: VecPoly3<F>,
    s: Poly2<F>,
    t: Poly6<F>,
    i: int,
    x: int,
)
    ensures
        u.at(i, x) == u.0@[i].value() + pow(x, 1) * u.1@[i].value(),
        v.at(i, x) == v.0@[i].value() + pow(x, 1) * v.1@[i].value() + pow(x, 2) * v.2@[i].value() + pow(x, 3)
            * v.3@[i].value(),
        s.at(x) == s.0.value() + pow(x, 1) * s.1.value() + pow(x, 2) * s.2.value(),
        t.at(x) == pow(x, 1) * t.t1.value() + pow(x, 2) * t.t2.value() + pow(x, 3) * t.t3.value() + pow(x, 4)
            * t.t4.value() + pow(x, 5) * t.t5.value() + pow(x, 6) * t.t6.value(),
        0 <= i < u.0@.len() ==> u.evaluated(x)[i] == md(
            u.0@[i].value() + pow(x, 1) * u.1@[i].value(),
            F::modulus(),
        ),
        0 <= i < v.0@.len() ==> v.evaluated(x)[i] == md(
            v.0@[i].value() + pow(x, 1) * v.1@[i].value() + pow(x, 2) * v.2@[i].value() + pow(x, 3)
                * v.3@[i].value(),
            F::modulus(),
        ),
        u.evaluated(x).len() == u.0@.len(),
        v.evaluated(x).len() == v.0@.len(),
{
    lemma_pow1(x);
    lemma_pow_next(x, 1);
    lemma_pow_next(x, 2);
    lemma_pow_next(x, 3);
    lemma_pow_next(x, 4);
    lemma_pow_next(x, 5);
    let (a, b, c, d) = (v.0@[i].value(), v.1@[i].value(), v.2@[i].value(), v.3@[i].value());
    let e = u.1@[i].value();
    assert(e * x == x * e) by (nonlinear_arith);
    lemma_horner(x, b, c, d, 0, 0, 0);
    lemma_horner(x, s.1.value(), s.2.value(), 0, 0, 0, 0);
    lemma_horner(x, t.t1.value(), t.t2.value(), t.t3.value(), t.t4.value(), t.t5.value(), t.t6.value());
    assert(x * 0 == 0) by (nonlinear_arith);
}

/// Horner's rule.
proof fn lemma_horner(x: int, a: int, b: int, c: int, d: int, e: int, f: int)
    ensures
        x * (a + x * (b + x * (c + x * (d + x * (e + x * f))))) == x * a + (x * x) * b + (x * (x * x)) * c + (x * (x * (
        x * x))) * d + (x * (x * (x * (x * x)))) * e + (x * (x * (x * (x * (x * x))))) * f,
{
    let x2 = x * x;
    let x3 = x * x2;
    let x4 = x * x3;
    let x5 = x * x4;
    let h4 = e + x * f;
    let h3 = d + x * h4;
    let h2 = c + x * h3;
    let h1 = b + x * h2;
    assert(x * (a + x * h1) == x * a + x2 * h1) by (nonlinear_arith)
        requires
            x2 == x * x,
    ;
    assert(x2 * (b + x * h2) == x2 * b + x3 * h2) by (nonlinear_arith)
        requires
            x3 == x * x2,
    ;
    assert(x3 * (c + x * h3) == x3 * c + x4 * h3) by (nonlinear_arith)
        requires
            x4 == x * x3,
    ;
    assert(x4 * (d + x * h4) == x4 * d + x5 * h4) by (nonlinear_arith)
        requires
            x5 == x * x4,
    ;
    let x6 = x * x5;
    assert(x5 * (e + x * f) == x5 * e + x6 * f) by (nonlinear_arith)
        requires
            x6 == x * x5,
    ;
}

} // verus!
