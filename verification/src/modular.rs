//! Arithmetic modulo the order of a group.

use vstd::arithmetic::div_mod::{
    lemma_add_mod_noop, lemma_mod_equivalence, lemma_mod_twice, lemma_mul_mod_noop, lemma_small_mod,
    lemma_sub_mod_noop,
};
use vstd::arithmetic::power::{lemma_pow0, pow};
use vstd::prelude::*;
use crate::sums::{lemma_sum_add, lemma_sum_ext, lemma_sum_scale, sum};

verus! {

/// The residue of `a` modulo `q`.
#[verifier::opaque]
pub open spec fn md(a: int, q: int) -> int {
    a % q
}

/// `a` and `b` are congruent modulo `q`.
pub open spec fn eqm(a: int, b: int, q: int) -> bool {
    md(a, q) == md(b, q)
}

/// The sum of two residues.
#[verifier::opaque]
pub open spec fn add_mod(a: int, b: int, q: int) -> int {
    (a + b) % q
}

/// The difference of two residues.
#[verifier::opaque]
pub open spec fn sub_mod(a: int, b: int, q: int) -> int {
    (a - b) % q
}

/// The product of two residues.
#[verifier::opaque]
pub open spec fn mul_mod(a: int, b: int, q: int) -> int {
    (a * b) % q
}

/// `w` is the residue whose product with `a` is one.
pub open spec fn is_inverse(a: int, w: int, q: int) -> bool {
    0 <= w < q && mul_mod(a, w, q) == 1
}

/// The inverse of `a` modulo `q`, and zero where `a` has none.
pub open spec fn inv_mod(a: int, q: int) -> int {
    if exists|w: int| is_inverse(a, w, q) {
        choose|w: int| is_inverse(a, w, q)
    } else {
        0
    }
}

pub broadcast proof fn lemma_add_md(a: int, b: int, q: int)
    requires
        q > 0,
    ensures
        #[trigger] add_mod(md(a, q), md(b, q), q) == md(a + b, q),
{
    reveal(add_mod);
    reveal(md);
    lemma_add_mod_noop(a, b, q);
}

pub broadcast proof fn lemma_sub_md(a: int, b: int, q: int)
    requires
        q > 0,
    ensures
        #[trigger] sub_mod(md(a, q), md(b, q), q) == md(a - b, q),
{
    reveal(sub_mod);
    reveal(md);
    lemma_sub_mod_noop(a, b, q);
}

pub broadcast proof fn lemma_mul_md(a: int, b: int, q: int)
    requires
        q > 0,
    ensures
        #[trigger] mul_mod(md(a, q), md(b, q), q) == md(a * b, q),
{
    reveal(mul_mod);
    reveal(md);
    lemma_mul_mod_noop(a, b, q);
}

/// Rewrites an expression over residues into the residue of the expression.
pub broadcast group group_mod {
    lemma_add_md,
    lemma_sub_md,
    lemma_mul_md,
}

pub proof fn lemma_md_range(a: int, q: int)
    requires
        q > 0,
    ensures
        0 <= md(a, q) < q,
        md(md(a, q), q) == md(a, q),
{
    reveal(md);
    lemma_mod_twice(a, q);
}

/// Sums, differences and products of residues are residues.
pub proof fn lemma_mod_range(a: int, b: int, q: int)
    requires
        q > 0,
    ensures
        0 <= add_mod(a, b, q) < q,
        0 <= sub_mod(a, b, q) < q,
        0 <= mul_mod(a, b, q) < q,
{
    reveal(add_mod);
    reveal(sub_mod);
    reveal(mul_mod);
}

pub proof fn lemma_md_small(a: int, q: int)
    requires
        0 <= a < q,
    ensures
        md(a, q) == a,
{
    reveal(md);
    lemma_small_mod(a as nat, q as nat);
}

pub proof fn lemma_eqm_add(a: int, b: int, c: int, d: int, q: int)
    requires
        q > 0,
        eqm(a, b, q),
        eqm(c, d, q),
    ensures
        eqm(a + c, b + d, q),
{
    lemma_add_md(a, c, q);
    lemma_add_md(b, d, q);
}

pub proof fn lemma_eqm_sub(a: int, b: int, c: int, d: int, q: int)
    requires
        q > 0,
        eqm(a, b, q),
        eqm(c, d, q),
    ensures
        eqm(a - c, b - d, q),
{
    lemma_sub_md(a, c, q);
    lemma_sub_md(b, d, q);
}

pub proof fn lemma_eqm_mul(a: int, b: int, c: int, d: int, q: int)
    requires
        q > 0,
        eqm(a, b, q),
        eqm(c, d, q),
    ensures
        eqm(a * c, b * d, q),
{
    lemma_mul_md(a, c, q);
    lemma_mul_md(b, d, q);
}

/// Termwise congruent sums are congruent.
pub proof fn lemma_eqm_sum(n: int, f: spec_fn(int) -> int, g: spec_fn(int) -> int, q: int)
    requires
        q > 0,
        forall|i: int| 0 <= i < n ==> eqm(#[trigger] f(i), g(i), q),
    ensures
        eqm(sum(n, f), sum(n, g), q),
    decreases n,
{
    if n > 0 {
        lemma_eqm_sum(n - 1, f, g, q);
        assert(eqm(f(n - 1), g(n - 1), q));
        lemma_eqm_add(sum(n - 1, f), sum(n - 1, g), f(n - 1), g(n - 1), q);
    }
}

/// A sum of linear combinations is the linear combination of the sums.
pub proof fn lemma_eqm_linear(
    n: int,
    f: spec_fn(int) -> int,
    c0: int,
    f0: spec_fn(int) -> int,
    c1: int,
    f1: spec_fn(int) -> int,
    c2: int,
    f2: spec_fn(int) -> int,
    c3: int,
    f3: spec_fn(int) -> int,
    q: int,
)
    requires
        q > 0,
        forall|i: int|
            0 <= i < n ==> eqm(#[trigger] f(i), c0 * f0(i) + c1 * f1(i) + c2 * f2(i) + c3 * f3(i), q),
    ensures
        eqm(
            sum(n, f),
            c0 * sum(n, f0) + c1 * sum(n, f1) + c2 * sum(n, f2) + c3 * sum(n, f3),
            q,
        ),
{
    let g0 = |i: int| c0 * f0(i);
    let g1 = |i: int| c1 * f1(i);
    let g2 = |i: int| c2 * f2(i);
    let g3 = |i: int| c3 * f3(i);
    let g01 = |i: int| g0(i) + g1(i);
    let g012 = |i: int| g01(i) + g2(i);
    let g = |i: int| g012(i) + g3(i);
    assert forall|i: int| 0 <= i < n implies eqm(#[trigger] f(i), g(i), q) by {}
    lemma_eqm_sum(n, f, g, q);
    lemma_sum_ext(n, g, |i: int| g012(i) + g3(i));
    lemma_sum_ext(n, g012, |i: int| g01(i) + g2(i));
    lemma_sum_ext(n, g01, |i: int| g0(i) + g1(i));
    lemma_sum_add(n, g012, g3);
    lemma_sum_add(n, g01, g2);
    lemma_sum_add(n, g0, g1);
    lemma_sum_scale(n, c0, f0);
    lemma_sum_scale(n, c1, f1);
    lemma_sum_scale(n, c2, f2);
    lemma_sum_scale(n, c3, f3);
}

/// Inverses are unique.
pub proof fn lemma_inverse_unique(a: int, w: int, q: int)
    requires
        q > 1,
        is_inverse(a, w, q),
    ensures
        inv_mod(a, q) == w,
{
    let v = inv_mod(a, q);
    assert(is_inverse(a, v, q));
    reveal(mul_mod);
    reveal(md);
    assert(eqm(a * v, 1, q)) by {
        lemma_small_mod(1, q as nat);
    }
    assert(eqm(a * w, 1, q)) by {
        lemma_small_mod(1, q as nat);
    }
    lemma_eqm_mul(w, w, a * v, 1, q);
    lemma_eqm_mul(v, v, a * w, 1, q);
    assert(w * (a * v) == v * (a * w)) by (nonlinear_arith);
    assert(w * 1 == w && v * 1 == v);
    lemma_md_small(w, q);
    lemma_md_small(v, q);
}

/// Zero has no inverse.
pub proof fn lemma_inverse_of_zero(q: int)
    requires
        q > 1,
    ensures
        inv_mod(0, q) == 0,
{
    assert forall|w: int| !is_inverse(0, w, q) by {
        reveal(mul_mod);
        assert(0 * w == 0);
        lemma_small_mod(0, q as nat);
    }
}

/// The product of a residue and its inverse is one.
pub proof fn lemma_inverse_product(a: int, q: int)
    requires
        q > 1,
        exists|w: int| is_inverse(a, w, q),
    ensures
        eqm(a * inv_mod(a, q), 1, q),
        0 <= inv_mod(a, q) < q,
{
    reveal(mul_mod);
    reveal(md);
    lemma_small_mod(1, q as nat);
}

pub proof fn lemma_pow_next(c: int, e: int)
    requires
        e >= 0,
    ensures
        pow(c, (e + 1) as nat) == c * pow(c, e as nat),
        pow(c, (e + 1) as nat) == pow(c, e as nat) * c,
        pow(c, 0) == 1,
{
    reveal(pow);
    assert(c * pow(c, e as nat) == pow(c, e as nat) * c) by (nonlinear_arith);
}

/// Powers of the inverse cancel powers.
pub proof fn lemma_pow_cancel(c: int, w: int, e: int, i: int, q: int)
    requires
        q > 0,
        0 <= i <= e,
        eqm(c * w, 1, q),
    ensures
        eqm(pow(c, e as nat) * pow(w, i as nat), pow(c, (e - i) as nat), q),
    decreases i,
{
    lemma_pow0(w);
    if i > 0 {
        lemma_pow_cancel(c, w, e - 1, i - 1, q);
        lemma_pow_next(c, e - 1);
        lemma_pow_next(w, i - 1);
        let x = pow(c, (e - 1) as nat);
        let y = pow(w, (i - 1) as nat);
        assert((c * x) * (w * y) == (c * w) * (x * y)) by (nonlinear_arith);
        lemma_eqm_mul(c * w, 1, x * y, pow(c, (e - i) as nat), q);
    } else {
        assert(pow(c, e as nat) * 1 == pow(c, e as nat));
    }
}

/// Congruent bases have congruent powers.
pub proof fn lemma_eqm_pow(a: int, b: int, e: int, q: int)
    requires
        q > 0,
        e >= 0,
        eqm(a, b, q),
    ensures
        eqm(pow(a, e as nat), pow(b, e as nat), q),
    decreases e,
{
    lemma_pow0(a);
    lemma_pow0(b);
    if e > 0 {
        lemma_eqm_pow(a, b, e - 1, q);
        lemma_pow_next(a, e - 1);
        lemma_pow_next(b, e - 1);
        lemma_eqm_mul(a, b, pow(a, (e - 1) as nat), pow(b, (e - 1) as nat), q);
    }
}

/// Two numbers are congruent if the modulus divides their difference, and the
/// operations on residues are those on numbers, up to a multiple of the modulus.
pub proof fn law_residues(a: int, b: int, q: int)
    requires
        q > 1,
    ensures
        eqm(a, b, q) <==> (a - b) % q == 0,
        0 <= md(a, q) < q,
        (a - md(a, q)) % q == 0,
        (add_mod(a, b, q) - (a + b)) % q == 0,
        (sub_mod(a, b, q) - (a - b)) % q == 0,
        (mul_mod(a, b, q) - a * b) % q == 0,
        0 <= add_mod(a, b, q) < q,
        0 <= sub_mod(a, b, q) < q,
        0 <= mul_mod(a, b, q) < q,
{
    reveal(md);
    reveal(add_mod);
    reveal(sub_mod);
    reveal(mul_mod);
    lemma_mod_equivalence(a, b, q);
    lemma_mod_equivalence(a, a % q, q);
    lemma_mod_equivalence((a + b) % q, a + b, q);
    lemma_mod_equivalence((a - b) % q, a - b, q);
    lemma_mod_equivalence((a * b) % q, a * b, q);
    lemma_mod_twice(a, q);
    lemma_mod_twice(a + b, q);
    lemma_mod_twice(a - b, q);
    lemma_mod_twice(a * b, q);
}

} // verus!
