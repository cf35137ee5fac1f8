//! What it means that a proof is accepted.

use vstd::arithmetic::power::pow;
use vstd::prelude::*;
use crate::folding_laws::law_round_len;
use crate::generators::{GensView, gens_view};
use crate::group::{Field, Group, indices};
use crate::ipa_laws::invertible;
use crate::modular::{eqm, inv_mod, lemma_eqm_add, lemma_eqm_mul, lemma_eqm_sub, lemma_md_small};
use crate::r1cs::completeness::lemma_cancel_factor;
use crate::r1cs::constraint_system::all_terms;
use crate::r1cs::equations::{
    Statement, accepts, check_value, eq_ciphertexts, eq_commitment, eq_inner_product, eq_inputs,
    eq_polynomial, flattened,
};
use crate::r1cs::honest::{weight_constant, weights_input, weights_left, weights_output, weights_right};
use crate::r1cs::linear_combination::Terms;
use crate::r1cs::r1cs_proof::R1CSProof;
use crate::r1cs::verify::{VerifierCS, verified_log};
use crate::sums::{at, dot, lemma_sum_ext, sum};
use crate::transcript::Log;
use crate::util::powers_of;

verus! {

/// The element with a given encoding.
pub open spec fn decoded<G: Group>(e: G::Encoding) -> int {
    G::decoding(G::bytes(e))->0
}

/// The cross terms of the inner product argument, round by round.
pub open spec fn ipp_cross_terms<G: Group>(p: R1CSProof<G>) -> Seq<int> {
    let w = 2 * p.ipp_proof.k - 2;
    Seq::new(
        (p.ipp_proof.U_vecs@.len() * w) as nat,
        |i: int| decoded::<G>(p.ipp_proof.U_vecs@[i / w]@[i % w]),
    )
}

/// One side of the cross terms of the argument on the ciphertexts, round by
/// round.
pub open spec fn ecp_cross_terms<G: Group>(p: R1CSProof<G>, side: int) -> Seq<int> {
    let w = 2 * p.ecp_batched.k - 2;
    Seq::new(
        (p.ecp_batched.A_vecs@.len() * w) as nat,
        |i: int| decoded::<G>(p.ecp_batched.A_vecs@[i / w]@[i % w]@[side]),
    )
}

/// The commitment to the two vectors of the inner product argument, and to the
/// inner product that the proof claims.
pub open spec fn aggregate<G: Group>(
    p: R1CSProof<G>,
    v: G::Encoding,
    cs: Seq<Terms>,
    n: int,
    k: int,
    gens: GensView,
    log: Log,
) -> int {
    let q = G::Scalar::modulus();
    let c = p.challenges(log, k);
    let x = c.x;
    let yi = powers_of(inv_mod(c.y, q), k, q);
    let (wl, wr, wo) = (
        weights_left(cs, n, c.z, q),
        weights_right(cs, n, c.z, q),
        weights_output(cs, n, c.z, q),
    );
    let wv = weights_input(cs, k, c.z, q);
    x * decoded::<G>(p.A_I) + x * x * decoded::<G>(p.A_O) + x * x * x * decoded::<G>(p.S) - p.e_blinding.value()
        * gens.b_blinding + x * sum(k, |i: int| (yi[i] * at(wr, i)) * gens.g[i]) + sum(
        k,
        |i: int| (yi[i] * (x * at(wl, i) + at(wo, i)) - 1) * gens.h[i],
    ) + c.x_ipp * (decoded::<G>(v) + c.x_prime * decoded::<G>(p.S_prime) - p.ec_blinding.value()
        * gens.b_blinding) + c.x_ipp * sum(k, |i: int| (yi[i] * wv[i]) * gens.h[i]) + (p.t_x.value() + c.x_ipp
        * p.t_cross.value() + c.x_ipp * c.x_ipp * p.tc_x.value()) * c.w_agg * gens.b
}

/// The left side of the inner product argument: the final vectors under the
/// bases, and their inner product.
pub open spec fn folded_side<G: Group>(p: R1CSProof<G>, k: int, gens: GensView, log: Log) -> int {
    let q = G::Scalar::modulus();
    let c = p.challenges(log, k);
    let s = p.ipp_proof.scalars(p.log_ipp(log), k);
    let yi = powers_of(inv_mod(c.y, q), k, q);
    dot(s.g, gens.g) + sum(k, |i: int| (yi[i] * s.h[i]) * gens.h[i]) + c.w_agg * s.q * gens.b
}

/// The inner product argument opens the commitment to the two vectors.
pub open spec fn inner_product_holds<G: Group>(
    p: R1CSProof<G>,
    v: G::Encoding,
    cs: Seq<Terms>,
    n: int,
    k: int,
    gens: GensView,
    log: Log,
) -> bool {
    let s = p.ipp_proof.scalars(p.log_ipp(log), k);
    eqm(
        folded_side(p, k, gens, log),
        s.p * aggregate(p, v, cs, n, k, gens, log) + dot(s.u, ipp_cross_terms(p)),
        G::Scalar::modulus(),
    )
}

/// `t_x` is the value at `x` of the polynomial that the constraints and the
/// commitments determine.
pub open spec fn polynomial_holds<G: Group>(
    p: R1CSProof<G>,
    cs: Seq<Terms>,
    n: int,
    k: int,
    gens: GensView,
    log: Log,
) -> bool {
    let q = G::Scalar::modulus();
    let c = p.challenges(log, k);
    let x = c.x;
    let yi = powers_of(inv_mod(c.y, q), k, q);
    let (wl, wr) = (weights_left(cs, n, c.z, q), weights_right(cs, n, c.z, q));
    eqm(
        p.t_x.value() * gens.b + p.t_x_blinding.value() * gens.b_blinding,
        x * x * (weight_constant(cs, c.z, q) + sum(wl.len() as int, |i: int| (wr[i] * yi[i]) * wl[i])) * gens.b + x
            * decoded::<G>(p.T_1) + x * x * decoded::<G>(p.T_2) + x * x * x * decoded::<G>(p.T_3) + x * x * x * x
            * decoded::<G>(p.T_4) + x * x * x * x * x * decoded::<G>(p.T_5) + x * x * x * x * x * x * decoded::<G>(
            p.T_6,
        ),
        q,
    )
}

/// `tc_x` is the inner product of the blinded inputs and their weights.
pub open spec fn inputs_hold<G: Group>(p: R1CSProof<G>, k: int, gens: GensView, log: Log) -> bool {
    eqm(
        p.tc_x.value() * gens.b + p.tc_x_blinding.value() * gens.b_blinding,
        decoded::<G>(p.T_2) + p.challenges(log, k).x_prime * decoded::<G>(p.T_1_prime),
        G::Scalar::modulus(),
    )
}

/// The folding argument opens the pair that comes out of the ciphertexts.
pub open spec fn ciphertexts_hold<G: Group>(
    p: R1CSProof<G>,
    k: int,
    gens: GensView,
    st: Statement,
    log: Log,
) -> bool {
    let c = p.challenges(log, k);
    let s = p.ecp_batched.scalars(p.log_ecp(log, k), k);
    let n = st.c1.len() as int;
    let r = p.r_blinding.value();
    eqm(
        dot(s.z.take(n), st.c1) + c.batch * dot(s.z.take(n), st.c2),
        s.p * ((st.c_0 + c.x_prime * decoded::<G>(p.S1_prime) - r * gens.b) + c.batch * (st.c_1 + c.x_prime
            * decoded::<G>(p.S2_prime) - r * gens.f)) + dot(s.u, ecp_cross_terms(p, 1)),
        G::Scalar::modulus(),
    )
}

/// The folding argument opens the commitment to the inputs.
pub open spec fn commitment_holds<G: Group>(
    p: R1CSProof<G>,
    v: G::Encoding,
    k: int,
    gens: GensView,
    log: Log,
) -> bool {
    let c = p.challenges(log, k);
    let s = p.ecp_batched.scalars(p.log_ecp(log, k), k);
    eqm(
        dot(s.z, gens.g),
        s.p * (decoded::<G>(v) + c.x_prime * decoded::<G>(p.S_prime) - p.ec_blinding.value() * gens.b_blinding)
            + dot(s.u, ecp_cross_terms(p, 0)),
        G::Scalar::modulus(),
    )
}

/// The numbers are congruent if their difference is to zero, and the other way
/// round.
proof fn lemma_difference(a: int, b: int, q: int)
    requires
        q > 1,
    ensures
        eqm(a, b, q) <==> eqm(a - b, 0, q),
{
    if eqm(a, b, q) {
        lemma_eqm_sub(a, b, b, b, q);
    }
    if eqm(a - b, 0, q) {
        lemma_eqm_add(a - b, 0, b, b, q);
    }
}

/// Each statement is that one of the five expressions that a verifier combines
/// vanishes.
proof fn lemma_statements<G: Group>(
    p: R1CSProof<G>,
    v: G::Encoding,
    cs: Seq<Terms>,
    n: int,
    k: int,
    gens: GensView,
    st: Statement,
    log: Log,
)
    ensures
        ({
            let q = G::Scalar::modulus();
            let c = p.challenges(log, k);
            let (o, s) = (p.opened(v), p.responses());
            let f = flattened(cs, n, k, c.y, c.z, q);
            let si = p.ipp_proof.scalars(p.log_ipp(log), k);
            let se = p.ecp_batched.scalars(p.log_ecp(log, k), k);
            &&& inner_product_holds(p, v, cs, n, k, gens, log) <==> eqm(eq_inner_product(o, s, f, c, gens, si), 0, q)
            &&& eq_inner_product(o, s, f, c, gens, si) == folded_side(p, k, gens, log) - (si.p * aggregate(
                p,
                v,
                cs,
                n,
                k,
                gens,
                log,
            ) + dot(si.u, ipp_cross_terms(p)))
            &&& polynomial_holds(p, cs, n, k, gens, log) <==> eqm(eq_polynomial(o, s, f, c, gens), 0, q)
            &&& inputs_hold(p, k, gens, log) <==> eqm(eq_inputs(o, s, c, gens), 0, q)
            &&& ciphertexts_hold(p, k, gens, st, log) <==> eqm(eq_ciphertexts(o, s, c, gens, st, se), 0, q)
            &&& commitment_holds(p, v, k, gens, log) <==> eqm(eq_commitment(o, s, c, gens, se), 0, q)
        }),
{
    let q = G::Scalar::modulus();
    G::Scalar::modulus_range();
    let c = p.challenges(log, k);
    let (o, s) = (p.opened(v), p.responses());
    let f = flattened(cs, n, k, c.y, c.z, q);
    let si = p.ipp_proof.scalars(p.log_ipp(log), k);
    let se = p.ecp_batched.scalars(p.log_ecp(log, k), k);
    let x = c.x;
    assert(ipp_cross_terms(p) =~= o.u);
    assert(ecp_cross_terms(p, 0) =~= o.a0);
    assert(ecp_cross_terms(p, 1) =~= o.a1);
    // The inner product argument
    let (wl, wr, wo, wv, yi) = (f.wl, f.wr, f.wo, f.wv, f.yi);
    lemma_sum_ext(
        k,
        |i: int| (f.yi[i] * at(f.wr, i)) * gens.g[i],
        |i: int| (yi[i] * at(wr, i)) * gens.g[i],
    );
    let h = gens.h;
    lemma_sum_ext(
        k,
        |i: int| (f.yi[i] * (x * at(f.wl, i) + at(f.wo, i)) - 1) * h[i],
        |i: int| (yi[i] * (x * at(wl, i) + at(wo, i)) - 1) * gens.h[i],
    );
    lemma_sum_ext(k, |i: int| (f.yi[i] * f.wv[i]) * h[i], |i: int| (yi[i] * wv[i]) * gens.h[i]);
    let sh = si.h;
    lemma_sum_ext(k, |i: int| (f.yi[i] * sh[i]) * h[i], |i: int| (yi[i] * si.h[i]) * gens.h[i]);
    let right = si.p * aggregate(p, v, cs, n, k, gens, log) + dot(si.u, o.u);
    assert(eq_inner_product(o, s, f, c, gens, si) == folded_side(p, k, gens, log) - right);
    lemma_difference(folded_side(p, k, gens, log), right, q);
    // The polynomial
    lemma_sum_ext(
        f.wl.len() as int,
        |i: int| (f.wr[i] * f.yi[i]) * f.wl[i],
        |i: int| (wr[i] * yi[i]) * wl[i],
    );
    let d = f.wc + sum(wl.len() as int, |i: int| (wr[i] * yi[i]) * wl[i]);
    let ts = x * o.t_1 + x * x * o.t_2 + x * x * x * o.t_3 + x * x * x * x * o.t_4 + x * x * x * x * x * o.t_5 + x * x
        * x * x * x * x * o.t_6;
    let (lt, rt) = (
        s.t_x * gens.b + s.t_x_blinding * gens.b_blinding,
        x * x * d * gens.b + x * o.t_1 + x * x * o.t_2 + x * x * x * o.t_3 + x * x * x * x * o.t_4 + x * x * x * x * x
            * o.t_5 + x * x * x * x * x * x * o.t_6,
    );
    let gb = gens.b;
    let xx = x * x;
    let tx = s.t_x;
    assert((xx * d - tx) * gb == xx * d * gb - tx * gb) by (nonlinear_arith);
    assert(eq_polynomial(o, s, f, c, gens) == rt - lt);
    lemma_difference(rt, lt, q);
    // The inputs
    let (li, ri) = (
        s.tc_x * gens.b + s.tc_x_blinding * gens.b_blinding,
        o.t_2 + c.x_prime * o.t_1_prime,
    );
    lemma_difference(ri, li, q);
    // The ciphertexts
    let m = st.c1.len() as int;
    let e = c.batch;
    let le = dot(se.z.take(m), st.c1) + e * dot(se.z.take(m), st.c2);
    let rb = s.r_blinding;
    let inner = (st.c_0 + c.x_prime * o.s1_prime - rb * gens.b) + e * (st.c_1 + c.x_prime * o.s2_prime - rb
        * gens.f);
    let minus = rb * gens.b + e * rb * gens.f - st.c_0 - e * st.c_1 - c.x_prime * o.s1_prime - e * c.x_prime
        * o.s2_prime;
    let (xp, s2, c1, gf) = (c.x_prime, o.s2_prime, st.c_1, gens.f);
    assert(e * (c1 + xp * s2 - rb * gf) == e * c1 + e * xp * s2 - e * rb * gf) by (nonlinear_arith);
    assert(minus == -inner);
    let sp = se.p;
    assert(sp * (-inner) == -(sp * inner)) by (nonlinear_arith);
    let re = sp * inner + dot(se.u, o.a1);
    assert(eq_ciphertexts(o, s, c, gens, st, se) == le - re);
    lemma_difference(le, re, q);
    // The commitment
    let opened = o.v + c.x_prime * o.s_prime - s.ec_blinding * gens.b_blinding;
    assert(sp * (-opened) == -(sp * opened)) by (nonlinear_arith);
    assert(s.ec_blinding * gens.b_blinding - o.v - c.x_prime * o.s_prime == -opened);
    let (lc, rc) = (dot(se.z, gens.g), sp * opened + dot(se.u, o.a0));
    assert(eq_commitment(o, s, c, gens, se) == lc - rc);
    lemma_difference(lc, rc, q);
}

/// Whatever weight makes a proof accepted, all its points are group elements,
/// and the final vectors have the lengths that the folding leaves.
pub proof fn law_accepted_shape<G: Group>(
    p: R1CSProof<G>,
    v: G::Encoding,
    cs: Seq<Terms>,
    n: int,
    k: int,
    gens: GensView,
    st: Statement,
    log: Log,
    r: int,
)
    requires
        p.shaped(),
        accepts(p, v, cs, n, k, gens, st, log, r),
    ensures
        k > 0,
        ({
            let d = pow(p.ipp_proof.k as int, p.ipp_proof.U_vecs@.len());
            &&& p.ipp_proof.a_final@.len() == (k + d - 1) / d
            &&& p.ipp_proof.b_final@.len() == (k + d - 1) / d
        }),
        ({
            let d = pow(p.ecp_batched.k as int, p.ecp_batched.A_vecs@.len());
            p.ecp_batched.z@.len() == (k + d - 1) / d
        }),
        G::decoding(G::bytes(v)) is Some,
        G::decoding(G::bytes(p.A_I)) is Some,
        G::decoding(G::bytes(p.A_O)) is Some,
        G::decoding(G::bytes(p.S)) is Some,
        G::decoding(G::bytes(p.T_1)) is Some,
        G::decoding(G::bytes(p.T_2)) is Some,
        G::decoding(G::bytes(p.T_3)) is Some,
        G::decoding(G::bytes(p.T_4)) is Some,
        G::decoding(G::bytes(p.T_5)) is Some,
        G::decoding(G::bytes(p.T_6)) is Some,
        G::decoding(G::bytes(p.S_prime)) is Some,
        G::decoding(G::bytes(p.T_1_prime)) is Some,
        G::decoding(G::bytes(p.S1_prime)) is Some,
        G::decoding(G::bytes(p.S2_prime)) is Some,
        forall|i: int, x: int|
            0 <= i < p.ipp_proof.U_vecs@.len() && 0 <= x < 2 * p.ipp_proof.k - 2 ==> G::decoding(
                G::bytes(#[trigger] p.ipp_proof.U_vecs@[i]@[x]),
            ) is Some,
        forall|i: int, x: int|
            0 <= i < p.ecp_batched.A_vecs@.len() && 0 <= x < 2 * p.ecp_batched.k - 2 ==> G::decoding(
                G::bytes((#[trigger] p.ecp_batched.A_vecs@[i]@[x])@[0]),
            ) is Some && G::decoding(G::bytes(p.ecp_batched.A_vecs@[i]@[x]@[1])) is Some,
{
    law_round_len(k, p.ipp_proof.k as int, p.ipp_proof.U_vecs@.len() as int);
    law_round_len(k, p.ecp_batched.k as int, p.ecp_batched.A_vecs@.len() as int);
}

/// A combination of five numbers that vanishes for every weight is made of
/// numbers that vanish.
proof fn lemma_all_weights(e0: int, e1: int, e2: int, e3: int, e4: int, q: int)
    requires
        q > 1,
        invertible(2, q),
        invertible(3, q),
        forall|r: int|
            eqm(#[trigger] weighted(e0, e1, e2, e3, e4, r), 0, q),
    ensures
        eqm(e0, 0, q),
        eqm(e1, 0, q),
        eqm(e2, 0, q),
        eqm(e3, 0, q),
        eqm(e4, 0, q),
{
    assert(weighted(e0, e1, e2, e3, e4, 0) == e0) by (nonlinear_arith);
    assert(weighted(e0, e1, e2, e3, e4, 1) == e0 + e1 + e2 + e3 + e4) by (nonlinear_arith);
    assert(weighted(e0, e1, e2, e3, e4, -1) == e0 - e1 + e2 - e3 + e4) by (nonlinear_arith);
    assert(weighted(e0, e1, e2, e3, e4, 2) == e0 + 2 * e1 + 4 * e2 + 8 * e3 + 16 * e4) by (nonlinear_arith);
    assert(weighted(e0, e1, e2, e3, e4, -2) == e0 - 2 * e1 + 4 * e2 - 8 * e3 + 16 * e4) by (nonlinear_arith);
    let (a, b) = (weighted(e0, e1, e2, e3, e4, 1), weighted(e0, e1, e2, e3, e4, -1));
    let (c, d) = (weighted(e0, e1, e2, e3, e4, 2), weighted(e0, e1, e2, e3, e4, -2));
    assert(eqm(a, 0, q) && eqm(b, 0, q) && eqm(c, 0, q) && eqm(d, 0, q));
    assert(eqm(weighted(e0, e1, e2, e3, e4, 0), 0, q));
    // The even part
    lemma_eqm_add(a, 0, b, 0, q);
    lemma_eqm_mul(2, 2, e0, 0, q);
    lemma_eqm_sub(a + b, 0, 2 * e0, 0, q);
    assert(a + b - 2 * e0 == 2 * (e2 + e4));
    lemma_cancel_factor(2, e2 + e4, q);
    lemma_eqm_add(c, 0, d, 0, q);
    lemma_eqm_sub(c + d, 0, 2 * e0, 0, q);
    assert(c + d - 2 * e0 == 2 * (4 * e2 + 16 * e4));
    lemma_cancel_factor(2, 4 * e2 + 16 * e4, q);
    lemma_eqm_mul(4, 4, e2 + e4, 0, q);
    lemma_eqm_sub(4 * e2 + 16 * e4, 0, 4 * (e2 + e4), 0, q);
    assert(4 * e2 + 16 * e4 - 4 * (e2 + e4) == 2 * (2 * (3 * e4)));
    lemma_cancel_factor(2, 2 * (3 * e4), q);
    lemma_cancel_factor(2, 3 * e4, q);
    lemma_cancel_factor(3, e4, q);
    lemma_eqm_sub(e2 + e4, 0, e4, 0, q);
    // The odd part
    lemma_eqm_sub(a, 0, b, 0, q);
    assert(a - b == 2 * (e1 + e3));
    lemma_cancel_factor(2, e1 + e3, q);
    lemma_eqm_sub(c, 0, d, 0, q);
    assert(c - d == 2 * (2 * (e1 + 4 * e3)));
    lemma_cancel_factor(2, 2 * (e1 + 4 * e3), q);
    lemma_cancel_factor(2, e1 + 4 * e3, q);
    lemma_eqm_sub(e1 + 4 * e3, 0, e1 + e3, 0, q);
    assert(e1 + 4 * e3 - (e1 + e3) == 3 * e3);
    lemma_cancel_factor(3, e3, q);
    lemma_eqm_sub(e1 + e3, 0, e3, 0, q);
}

spec fn weighted(e0: int, e1: int, e2: int, e3: int, e4: int, r: int) -> int {
    e0 + r * e1 + r * r * e2 + r * r * r * e3 + r * r * r * r * e4
}

/// A proof that is accepted with every weight satisfies each of the five
/// equations: the inner product argument opens the commitment to the two
/// vectors, the polynomial has the value that is claimed, so have the inputs,
/// and the argument for two sets of bases opens both the pair that comes out
/// and the commitment to the inputs.
pub proof fn law_accepted_equations<G: Group>(
    p: R1CSProof<G>,
    v: G::Encoding,
    cs: Seq<Terms>,
    n: int,
    k: int,
    gens: GensView,
    st: Statement,
    log: Log,
)
    requires
        forall|r: int| #[trigger] accepts(p, v, cs, n, k, gens, st, log, r),
    ensures
        inner_product_holds(p, v, cs, n, k, gens, log),
        polynomial_holds(p, cs, n, k, gens, log),
        inputs_hold(p, k, gens, log),
        ciphertexts_hold(p, k, gens, st, log),
        commitment_holds(p, v, k, gens, log),
{
    let q = G::Scalar::modulus();
    G::Scalar::modulus_range();
    G::Scalar::small_units();
    assert(invertible(2, q) && invertible(3, q));
    lemma_statements(p, v, cs, n, k, gens, st, log);
    let c = p.challenges(log, k);
    let (o, s) = (p.opened(v), p.responses());
    let f = flattened(cs, n, k, c.y, c.z, q);
    let si = p.ipp_proof.scalars(p.log_ipp(log), k);
    let se = p.ecp_batched.scalars(p.log_ecp(log, k), k);
    let (e0, e1, e2) = (
        eq_inner_product(o, s, f, c, gens, si),
        eq_polynomial(o, s, f, c, gens),
        eq_inputs(o, s, c, gens),
    );
    let (e3, e4) = (eq_ciphertexts(o, s, c, gens, st, se), eq_commitment(o, s, c, gens, se));
    lemma_md_small(0, q);
    assert forall|r: int| eqm(#[trigger] weighted(e0, e1, e2, e3, e4, r), 0, q) by {
        assert(accepts(p, v, cs, n, k, gens, st, log, r));
        assert(check_value(p, v, cs, n, k, gens, st, log, r) == weighted(e0, e1, e2, e3, e4, r));
    }
    lemma_all_weights(e0, e1, e2, e3, e4, q);
}

/// A proof that satisfies the five equations is accepted with every weight, if
/// it is with one.
pub proof fn law_equations_accepted<G: Group>(
    p: R1CSProof<G>,
    v: G::Encoding,
    cs: Seq<Terms>,
    n: int,
    k: int,
    gens: GensView,
    st: Statement,
    log: Log,
    r: int,
    weight: int,
)
    requires
        accepts(p, v, cs, n, k, gens, st, log, r),
        inner_product_holds(p, v, cs, n, k, gens, log),
        polynomial_holds(p, cs, n, k, gens, log),
        inputs_hold(p, k, gens, log),
        ciphertexts_hold(p, k, gens, st, log),
        commitment_holds(p, v, k, gens, log),
    ensures
        accepts(p, v, cs, n, k, gens, st, log, weight),
{
    let q = G::Scalar::modulus();
    G::Scalar::modulus_range();
    lemma_statements(p, v, cs, n, k, gens, st, log);
    let c = p.challenges(log, k);
    let (o, s) = (p.opened(v), p.responses());
    let f = flattened(cs, n, k, c.y, c.z, q);
    let si = p.ipp_proof.scalars(p.log_ipp(log), k);
    let se = p.ecp_batched.scalars(p.log_ecp(log, k), k);
    let (e0, e1, e2) = (
        eq_inner_product(o, s, f, c, gens, si),
        eq_polynomial(o, s, f, c, gens),
        eq_inputs(o, s, c, gens),
    );
    let (e3, e4) = (eq_ciphertexts(o, s, c, gens, st, se), eq_commitment(o, s, c, gens, se));
    let w = weight;
    lemma_md_small(0, q);
    lemma_eqm_mul(w, w, e1, 0, q);
    lemma_eqm_mul(w * w, w * w, e2, 0, q);
    lemma_eqm_mul(w * w * w, w * w * w, e3, 0, q);
    lemma_eqm_mul(w * w * w * w, w * w * w * w, e4, 0, q);
    lemma_eqm_add(e0, 0, w * e1, w * 0, q);
    lemma_eqm_add(e0 + w * e1, 0, w * w * e2, w * w * 0, q);
    lemma_eqm_add(e0 + w * e1 + w * w * e2, 0, w * w * w * e3, w * w * w * 0, q);
    lemma_eqm_add(e0 + w * e1 + w * w * e2 + w * w * w * e3, 0, w * w * w * w * e4, w * w * w * w * 0, q);
}

/// If a proof is accepted and the final vectors of its inner product argument
/// are replaced, the other proof is accepted with the same weight just if the
/// left side of the inner product argument stays the same.
pub proof fn law_final_vectors_bound<G: Group>(
    p: R1CSProof<G>,
    other: R1CSProof<G>,
    v: G::Encoding,
    cs: Seq<Terms>,
    n: int,
    k: int,
    gens: GensView,
    st: Statement,
    log: Log,
    r: int,
)
    requires
        other == (R1CSProof { ipp_proof: other.ipp_proof, ..p }),
        other.ipp_proof.k == p.ipp_proof.k,
        other.ipp_proof.U_vecs == p.ipp_proof.U_vecs,
        other.ipp_proof.a_final@.len() == p.ipp_proof.a_final@.len(),
        other.ipp_proof.b_final@.len() == p.ipp_proof.b_final@.len(),
        accepts(p, v, cs, n, k, gens, st, log, r),
    ensures
        accepts(other, v, cs, n, k, gens, st, log, r) <==> eqm(
            folded_side(other, k, gens, log),
            folded_side(p, k, gens, log),
            G::Scalar::modulus(),
        ),
{
    let q = G::Scalar::modulus();
    G::Scalar::modulus_range();
    lemma_statements(p, v, cs, n, k, gens, st, log);
    lemma_statements(other, v, cs, n, k, gens, st, log);
    assert(other.ipp_proof.points() =~= p.ipp_proof.points());
    assert(other.log_ipp(log) == p.log_ipp(log));
    assert(other.log_batch(log, k) == p.log_batch(log, k));
    let (a, b) = (p.challenges(log, k), other.challenges(log, k));
    assert(a == b);
    assert(ipp_cross_terms(other) =~= ipp_cross_terms(p));
    assert(other.opened(v).u =~= p.opened(v).u);
    assert(other.opened(v) == p.opened(v));
    let (s, t) = (
        p.ipp_proof.scalars(p.log_ipp(log), k),
        other.ipp_proof.scalars(other.log_ipp(log), k),
    );
    assert(s.p == t.p);
    assert(s.u == t.u);
    let (x, y) = (
        check_value(p, v, cs, n, k, gens, st, log, r),
        check_value(other, v, cs, n, k, gens, st, log, r),
    );
    let (l, m) = (folded_side(p, k, gens, log), folded_side(other, k, gens, log));
    assert(y - x == m - l);
    lemma_md_small(0, q);
    lemma_difference(m, l, q);
    if eqm(y, 0, q) {
        lemma_eqm_sub(y, 0, x, 0, q);
    }
    if eqm(m, l, q) {
        lemma_eqm_add(m - l, 0, x, 0, q);
    }
}

/// A verifier judges a proof by its own commitment, constraints and
/// generators, and by the ciphertexts that it is given, in the order in which it
/// is given them.
pub proof fn law_verifier_statement<'a, 'b, G: Group>(
    cs: VerifierCS<'a, 'b, G>,
    p: R1CSProof<G>,
    C1_prime: Seq<G::Point>,
    C2_prime: Seq<G::Point>,
    C: Seq<G::Point>,
    log: Log,
    r: int,
)
    ensures
        cs.accepts(p, C1_prime, C2_prime, C, log, r) <==> cs.V@.len() > 0 && accepts(
            p,
            cs.V@[0],
            Seq::new(cs.constraints@.len(), |i: int| cs.constraints@[i]@),
            cs.num_vars as int,
            cs.num_inputs as int,
            GensView {
                g: Seq::new(cs.bp_gens.G_vec@[0]@.len(), |i: int| G::index(cs.bp_gens.G_vec@[0]@[i])),
                h: Seq::new(cs.bp_gens.H_vec@[0]@.len(), |i: int| G::index(cs.bp_gens.H_vec@[0]@[i])),
                b: G::index(cs.pc_gens.B),
                b_blinding: G::index(cs.pc_gens.B_blinding),
                f: G::index(cs.pc_gens.F),
            },
            Statement {
                c1: Seq::new(C1_prime.len(), |i: int| G::index(C1_prime[i])),
                c2: Seq::new(C2_prime.len(), |i: int| G::index(C2_prime[i])),
                c_0: G::index(C[0]),
                c_1: G::index(C[1]),
            },
            log,
            r,
        ),
{
    let gens = gens_view(*cs.bp_gens, *cs.pc_gens);
    assert(all_terms(cs.constraints@) =~= Seq::new(cs.constraints@.len(), |i: int| cs.constraints@[i]@));
    assert(gens.g =~= Seq::new(cs.bp_gens.G_vec@[0]@.len(), |i: int| G::index(cs.bp_gens.G_vec@[0]@[i])));
    assert(gens.h =~= Seq::new(cs.bp_gens.H_vec@[0]@.len(), |i: int| G::index(cs.bp_gens.H_vec@[0]@[i])));
    assert(indices::<G>(C1_prime) =~= Seq::new(C1_prime.len(), |i: int| G::index(C1_prime[i])));
    assert(indices::<G>(C2_prime) =~= Seq::new(C2_prime.len(), |i: int| G::index(C2_prime[i])));
}

/// When a proof is accepted, the transcript of the verifier has taken in all
/// of it.
pub proof fn law_accepted_log<G: Group>(
    p: R1CSProof<G>,
    v: G::Encoding,
    cs: Seq<Terms>,
    n: int,
    k: int,
    gens: GensView,
    st: Statement,
    log: Log,
    r: int,
)
    requires
        accepts(p, v, cs, n, k, gens, st, log, r),
    ensures
        verified_log(p, log, k) == p.log_end(log, k),
{
}

/// How much of a proof the transcript of a verifier has taken in, accepted or
/// not: all of it, or as much as is read before it turns out that the
/// inner product argument or the one on the ciphertexts does not fit.
pub proof fn law_verified_log<G: Group>(p: R1CSProof<G>, log: Log, k: int)
    ensures
        ({
            let l = verified_log(p, log, k);
            let readable = forall|i: int, x: int|
                0 <= i < p.ipp_proof.U_vecs@.len() && 0 <= x < 2 * p.ipp_proof.k - 2 ==> G::decoding(
                    G::bytes(#[trigger] p.ipp_proof.U_vecs@[i]@[x]),
                ) is Some;
            &&& k <= 0 || !p.ipp_proof.fits(k) ==> l == p.log_ipp(log)
            &&& k > 0 && p.ipp_proof.fits(k) && !readable ==> l == p.log_batch(log, k)
            &&& k > 0 && p.ipp_proof.fits(k) && readable && !p.ecp_batched.fits(k) ==> l == p.log_ecp(log, k)
            &&& k > 0 && p.ipp_proof.fits(k) && readable && p.ecp_batched.fits(k) ==> l == p.log_end(log, k)
        }),
{
}

} // verus!
