//! What a verifier who accepts a proof rejects.

use vstd::arithmetic::power::{lemma_pow0, pow};
use vstd::prelude::*;
use crate::generators::GensView;
use crate::group::{Field, Group};
use crate::ipa_laws::invertible;
use crate::modular::{
    eqm, is_inverse, lemma_eqm_add, lemma_eqm_mul, lemma_eqm_sub, lemma_md_range, lemma_md_small,
    lemma_pow_next, md, mul_mod,
};
use crate::r1cs::completeness::lemma_cancel_factor;
use crate::r1cs::equations::{Statement, accepts, check_value, eq_ciphertexts};
use crate::r1cs::linear_combination::Terms;
use crate::r1cs::r1cs_proof::R1CSProof;
use crate::transcript::Log;
use crate::unfolding::suffix_product;

verus! {

/// What is congruent to something with an inverse has one.
proof fn lemma_invertible_residue(a: int, b: int, q: int)
    requires
        q > 1,
        invertible(a, q),
        eqm(a, b, q),
    ensures
        invertible(b, q),
{
    let w = choose|w: int| is_inverse(a, w, q);
    reveal(mul_mod);
    reveal(md);
    lemma_eqm_mul(a, b, w, w, q);
    assert(is_inverse(b, w, q));
}

/// Products of factors with inverses have inverses.
proof fn lemma_invertible_product(a: int, b: int, q: int)
    requires
        q > 1,
        invertible(a, q),
        invertible(b, q),
    ensures
        invertible(a * b, q),
{
    let v = choose|w: int| is_inverse(a, w, q);
    let w = choose|w: int| is_inverse(b, w, q);
    reveal(mul_mod);
    reveal(md);
    lemma_md_small(1, q);
    lemma_eqm_mul(a * v, 1, b * w, 1, q);
    lemma_md_range(v * w, q);
    lemma_eqm_mul(a * b, a * b, md(v * w, q), v * w, q);
    assert((a * b) * (v * w) == (a * v) * (b * w)) by (nonlinear_arith);
    assert(is_inverse(a * b, md(v * w, q), q));
}

proof fn lemma_invertible_power(a: int, e: nat, q: int)
    requires
        q > 1,
        invertible(a, q),
    ensures
        invertible(pow(a, e), q),
    decreases e,
{
    if e == 0 {
        lemma_pow0(a);
        lemma_invertible_one(q);
    } else {
        lemma_invertible_power(a, (e - 1) as nat, q);
        lemma_pow_next(a, e - 1);
        lemma_invertible_product(a, pow(a, (e - 1) as nat), q);
    }
}

/// The weight of the commitment has an inverse if all challenges have.
proof fn lemma_invertible_suffix(cs: Seq<int>, e: int, r: int, q: int)
    requires
        q > 1,
        0 <= r,
        forall|i: int| 0 <= i < cs.len() ==> invertible(#[trigger] cs[i], q),
    ensures
        invertible(suffix_product(cs, e, r), q),
    decreases cs.len() - r,
{
    if r >= cs.len() {
        lemma_invertible_one(q);
    } else {
        lemma_invertible_suffix(cs, e, r + 1, q);
        lemma_invertible_power(cs[r], e as nat, q);
        lemma_invertible_product(pow(cs[r], e as nat), suffix_product(cs, e, r + 1), q);
    }
}

proof fn lemma_invertible_one(q: int)
    requires
        q > 1,
    ensures
        invertible(1, q),
{
    reveal(mul_mod);
    lemma_md_small(1, q);
    assert(1int % q == 1) by {
        reveal(md);
    }
    assert(is_inverse(1, 1, q));
}

/// How the check depends on the pair that comes out.
proof fn lemma_check_difference<G: Group>(
    p: R1CSProof<G>,
    v: G::Encoding,
    cs: Seq<Terms>,
    n: int,
    k: int,
    gens: GensView,
    st: Statement,
    other: Statement,
    log: Log,
    r: int,
)
    requires
        other.c1 == st.c1,
        other.c2 == st.c2,
    ensures
        ({
            let e = p.challenges(log, k).batch;
            let sp = p.ecp_batched.scalars(p.log_ecp(log, k), k).p;
            check_value(p, v, cs, n, k, gens, st, log, r) - check_value(p, v, cs, n, k, gens, other, log, r)
                == r * (r * (r * (sp * ((other.c_0 - st.c_0) + e * (other.c_1 - st.c_1)))))
        }),
{
    let c = p.challenges(log, k);
    let (o, s) = (p.opened(v), p.responses());
    let se = p.ecp_batched.scalars(p.log_ecp(log, k), k);
    let (e, sp) = (c.batch, se.p);
    let a = eq_ciphertexts(o, s, c, gens, st, se);
    let b = eq_ciphertexts(o, s, c, gens, other, se);
    let (u0, u1, w0, w1) = (st.c_0, st.c_1, other.c_0, other.c_1);
    let (h1, h2, h3, h4) = (s.r_blinding * gens.b, e * s.r_blinding * gens.f, c.x_prime * o.s1_prime, e * c.x_prime
        * o.s2_prime);
    assert(sp * (h1 + h2 - u0 - e * u1 - h3 - h4) - sp * (h1 + h2 - w0 - e * w1 - h3 - h4) == sp * ((w0 - u0) + e
        * (w1 - u1))) by (nonlinear_arith);
    let d = sp * ((w0 - u0) + e * (w1 - u1));
    assert(a - b == d);
    assert(r * r * r * a - r * r * r * b == r * (r * (r * (a - b)))) by (nonlinear_arith);
}

/// A proof is accepted for only one value of the first component of the pair
/// that comes out, if neither the weight that the verifier draws nor a
/// challenge of the folding argument on the ciphertexts is zero.
pub proof fn law_first_component_unique<G: Group>(
    p: R1CSProof<G>,
    v: G::Encoding,
    cs: Seq<Terms>,
    n: int,
    k: int,
    gens: GensView,
    st: Statement,
    c_0: int,
    log: Log,
    r: int,
)
    requires
        accepts(p, v, cs, n, k, gens, st, log, r),
        !eqm(c_0, st.c_0, G::Scalar::modulus()),
        invertible(r, G::Scalar::modulus()),
        forall|i: int|
            0 <= i < p.ecp_batched.challenges(p.log_ecp(log, k), k).len() ==> invertible(
                #[trigger] p.ecp_batched.challenges(p.log_ecp(log, k), k)[i],
                G::Scalar::modulus(),
            ),
    ensures
        !accepts(p, v, cs, n, k, gens, Statement { c_0, ..st }, log, r),
{
    let q = G::Scalar::modulus();
    G::Scalar::modulus_range();
    let other = Statement { c_0, ..st };
    if accepts(p, v, cs, n, k, gens, other, log, r) {
        lemma_check_difference(p, v, cs, n, k, gens, st, other, log, r);
        let (x, y) = (
            check_value(p, v, cs, n, k, gens, st, log, r),
            check_value(p, v, cs, n, k, gens, other, log, r),
        );
        let e = p.challenges(log, k).batch;
        let challenges = p.ecp_batched.challenges(p.log_ecp(log, k), k);
        let sp = p.ecp_batched.scalars(p.log_ecp(log, k), k).p;
        let d = c_0 - st.c_0;
        lemma_md_small(0, q);
        lemma_eqm_sub(x, 0, y, 0, q);
        assert(e * (st.c_1 - st.c_1) == 0) by (nonlinear_arith);
        lemma_invertible_suffix(challenges, p.ecp_batched.k as int, 0, q);
        let whole = suffix_product(challenges, p.ecp_batched.k as int, 0);
        lemma_md_range(whole, q);
        lemma_invertible_residue(whole, sp, q);
        lemma_cancel_factor(r, r * (r * (sp * d)), q);
        lemma_cancel_factor(r, r * (sp * d), q);
        lemma_cancel_factor(r, sp * d, q);
        lemma_cancel_factor(sp, d, q);
        lemma_eqm_add(d, 0, st.c_0, st.c_0, q);
    }
}

/// A proof is accepted for only one value of the second component of the pair
/// that comes out, if neither the weight that the verifier draws nor a
/// challenge of the folding argument on the ciphertexts nor the one that joins
/// the components is zero.
pub proof fn law_second_component_unique<G: Group>(
    p: R1CSProof<G>,
    v: G::Encoding,
    cs: Seq<Terms>,
    n: int,
    k: int,
    gens: GensView,
    st: Statement,
    c_1: int,
    log: Log,
    r: int,
)
    requires
        accepts(p, v, cs, n, k, gens, st, log, r),
        !eqm(c_1, st.c_1, G::Scalar::modulus()),
        invertible(r, G::Scalar::modulus()),
        invertible(p.challenges(log, k).batch, G::Scalar::modulus()),
        forall|i: int|
            0 <= i < p.ecp_batched.challenges(p.log_ecp(log, k), k).len() ==> invertible(
                #[trigger] p.ecp_batched.challenges(p.log_ecp(log, k), k)[i],
                G::Scalar::modulus(),
            ),
    ensures
        !accepts(p, v, cs, n, k, gens, Statement { c_1, ..st }, log, r),
{
    let q = G::Scalar::modulus();
    G::Scalar::modulus_range();
    let other = Statement { c_1, ..st };
    if accepts(p, v, cs, n, k, gens, other, log, r) {
        lemma_check_difference(p, v, cs, n, k, gens, st, other, log, r);
        let (x, y) = (
            check_value(p, v, cs, n, k, gens, st, log, r),
            check_value(p, v, cs, n, k, gens, other, log, r),
        );
        let e = p.challenges(log, k).batch;
        let challenges = p.ecp_batched.challenges(p.log_ecp(log, k), k);
        let sp = p.ecp_batched.scalars(p.log_ecp(log, k), k).p;
        let d = c_1 - st.c_1;
        lemma_md_small(0, q);
        lemma_eqm_sub(x, 0, y, 0, q);
        lemma_invertible_suffix(challenges, p.ecp_batched.k as int, 0, q);
        let whole = suffix_product(challenges, p.ecp_batched.k as int, 0);
        lemma_md_range(whole, q);
        lemma_invertible_residue(whole, sp, q);
        lemma_cancel_factor(r, r * (r * (sp * (e * d))), q);
        lemma_cancel_factor(r, r * (sp * (e * d)), q);
        lemma_cancel_factor(r, sp * (e * d), q);
        lemma_cancel_factor(sp, e * d, q);
        lemma_cancel_factor(e, d, q);
        lemma_eqm_add(d, 0, st.c_1, st.c_1, q);
    }
}

} // verus!
