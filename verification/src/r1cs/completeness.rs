//! The proof system is complete: a verifier accepts what an honest prover
//! makes of a satisfying witness.

use vstd::arithmetic::power::{lemma_pow_distributes, pow};
use vstd::prelude::*;
use crate::ecp::{EcpScalars, EcpState, at_least, ecp_run, ecp_terms_0, ecp_terms_1, pairs_encode};
use crate::ecp_laws::{ecp_all_terms, law_ecp_complete};
use crate::folding_laws::lemma_dot_symmetric;
use crate::generators::GensView;
use crate::group::{Field, Group, encodes};
use crate::ipa::{IpaScalars, IpaState, all_encode, ipa_run, ipa_terms};
use crate::ipa_laws::{invertible, ipa_all_terms, ipa_value, law_ipa_complete};
use crate::modular::{
    eqm, inv_mod, is_inverse, lemma_eqm_add, lemma_eqm_linear, lemma_eqm_mul, lemma_eqm_sub, lemma_eqm_sum,
    lemma_inverse_product, lemma_md_range, lemma_md_small, md, mul_mod,
};
use crate::r1cs::constraint_system::{constraints_in_range, weight};
use crate::r1cs::equations::{
    Flattened, Opened, Responses, Statement, accepts, check_value, claimed_product, committed, delta,
    element, eq_ciphertexts, eq_commitment, eq_inner_product, eq_inputs, eq_polynomial, flattened,
    is_element, sum_folded, sum_input, sum_left_output, sum_right,
};
use crate::r1cs::flattening_laws::{
    Kind, law_flattening, law_flattening_satisfied, values_of, variable, weighted_values,
};
use crate::r1cs::honest::{
    Blindings, Ciphertexts, Polys, TPoly, batched, ecp_start, eval6, h_prime, honest, ipa_start, l_vec,
    lc_vec, pedersen, polys, r_vec, t_blindings, t_poly, weights_input,
};
use crate::r1cs::linear_combination::{Variable, eval_terms};
use crate::r1cs::prove::lemma_dot_prefix;
use crate::r1cs::r1cs_proof::{Challenges, R1CSProof};
use crate::r1cs::witness::{Witness, assignment, satisfied};
use crate::sums::{at, dot, lemma_sum_add, lemma_sum_ext, lemma_sum_truncate, lemma_sum_zero, sum};
use crate::transcript::Log;
use crate::util::powers_of;

verus! {

/// A residue is congruent to the number it is the residue of.
proof fn lemma_residue(a: int, q: int)
    requires
        q > 1,
    ensures
        eqm(md(a, q), a, q),
{
    lemma_md_range(a, q);
}

/// The powers of `y` and of its inverse cancel.
proof fn lemma_powers_cancel(y: int, i: int, q: int)
    requires
        q > 1,
        i >= 0,
        invertible(y, q),
    ensures
        eqm(md(pow(y, i as nat), q) * md(pow(inv_mod(y, q), i as nat), q), 1, q),
{
    let w = inv_mod(y, q);
    lemma_inverse_product(y, q);
    let (a, b) = (pow(y, i as nat), pow(w, i as nat));
    lemma_residue(a, q);
    lemma_residue(b, q);
    lemma_eqm_mul(md(a, q), a, md(b, q), b, q);
    lemma_pow_distributes(y, w, i as nat);
    crate::modular::lemma_eqm_pow(y * w, 1, i, q);
    vstd::arithmetic::power::lemma1_pow(i as nat);
}

// ---------------------------------------------------------------------------
// The inputs
// ---------------------------------------------------------------------------

/// The blinded inputs under some bases.
proof fn lemma_lc_dot(w: Witness, b: Blindings, x_prime: int, bases: Seq<int>, q: int)
    requires
        q > 1,
        b.s_L_prime.len() <= w.v.len(),
    ensures
        eqm(
            dot(lc_vec(w, b, x_prime, q), bases),
            dot(w.v, bases) + x_prime * dot(b.s_L_prime, bases),
            q,
        ),
{
    let k = w.v.len() as int;
    let lc = lc_vec(w, b, x_prime, q);
    let f = |i: int| lc[i] * bases[i];
    let fv = |i: int| w.v[i] * bases[i];
    let fs = |i: int| at(b.s_L_prime, i) * bases[i];
    let zero = |i: int| 0int;
    assert forall|i: int| 0 <= i < k implies eqm(
        #[trigger] f(i),
        1 * fv(i) + x_prime * fs(i) + 0 * zero(i) + 0 * zero(i),
        q,
    ) by {
        let (v, s, g) = (w.v[i], at(b.s_L_prime, i), bases[i]);
        lemma_residue(v + s * x_prime, q);
        lemma_eqm_mul(lc[i], v + s * x_prime, g, g, q);
        let sx = s * x_prime;
        assert((v + sx) * g == v * g + sx * g) by (nonlinear_arith);
        assert((s * x_prime) * g == x_prime * (s * g)) by (nonlinear_arith);
    }
    lemma_eqm_linear(k, f, 1, fv, x_prime, fs, 0, zero, 0, zero, q);
    let m = b.s_L_prime.len() as int;
    assert forall|i: int| m <= i < k implies #[trigger] fs(i) == 0 by {
        let g = bases[i];
        assert(0 * g == 0);
    }
    lemma_sum_truncate(k, m, fs);
    lemma_sum_ext(m, fs, |i: int| b.s_L_prime[i] * bases[i]);
}

/// The blinded inputs under the commitment.
proof fn lemma_lc_commitment(
    w: Witness,
    b: Blindings,
    x_prime: int,
    g: Seq<int>,
    bb: int,
    v: int,
    s_prime: int,
    ec: int,
    q: int,
)
    requires
        q > 1,
        b.s_L_prime.len() <= w.v.len(),
        v == md(w.v_blinding * bb + dot(w.v, g), q),
        s_prime == md(b.s_prime_blinding * bb + dot(b.s_L_prime, g), q),
        ec == md(w.v_blinding + b.s_prime_blinding * x_prime, q),
    ensures
        eqm(dot(lc_vec(w, b, x_prime, q), g), v + x_prime * s_prime - ec * bb, q),
{
    lemma_lc_dot(w, b, x_prime, g, q);
    let (d1, d2) = (dot(w.v, g), dot(b.s_L_prime, g));
    let (vb, sb) = (w.v_blinding, b.s_prime_blinding);
    lemma_residue(vb * bb + d1, q);
    lemma_residue(sb * bb + d2, q);
    lemma_residue(vb + sb * x_prime, q);
    lemma_eqm_mul(x_prime, x_prime, s_prime, sb * bb + d2, q);
    lemma_eqm_add(v, vb * bb + d1, x_prime * s_prime, x_prime * (sb * bb + d2), q);
    lemma_eqm_mul(ec, vb + sb * x_prime, bb, bb, q);
    lemma_eqm_sub(
        v + x_prime * s_prime,
        vb * bb + d1 + x_prime * (sb * bb + d2),
        ec * bb,
        (vb + sb * x_prime) * bb,
        q,
    );
    assert(vb * bb + d1 + x_prime * (sb * bb + d2) - (vb + sb * x_prime) * bb == d1 + x_prime * d2)
        by (nonlinear_arith);
}

/// The folding argument for the commitment to the inputs.
proof fn lemma_eq_commitment(
    w: Witness,
    b: Blindings,
    c: Challenges,
    gens: GensView,
    o: Opened,
    s: Responses,
    se: EcpScalars,
    q: int,
)
    requires
        q > 1,
        b.s_L_prime.len() <= w.v.len(),
        gens.g.len() >= w.v.len(),
        se.z.len() == w.v.len(),
        o.v == md(w.v_blinding * gens.b_blinding + dot(w.v, gens.g), q),
        o.s_prime == md(b.s_prime_blinding * gens.b_blinding + dot(b.s_L_prime, gens.g), q),
        s.ec_blinding == md(w.v_blinding + b.s_prime_blinding * c.x_prime, q),
        ({
            let g = gens.g.take(w.v.len() as int);
            eqm(dot(se.z, g), se.p * dot(lc_vec(w, b, c.x_prime, q), g) + dot(se.u, o.a0), q)
        }),
    ensures
        eqm(eq_commitment(o, s, c, gens, se), 0, q),
{
    let lc = lc_vec(w, b, c.x_prime, q);
    let g = gens.g.take(w.v.len() as int);
    lemma_dot_prefix(se.z, g, gens.g);
    lemma_dot_prefix(lc, g, gens.g);
    lemma_lc_commitment(
        w,
        b,
        c.x_prime,
        gens.g,
        gens.b_blinding,
        o.v,
        o.s_prime,
        s.ec_blinding,
        q,
    );
    let p = dot(lc, gens.g);
    let eb = s.ec_blinding * gens.b_blinding;
    let xs = c.x_prime * o.s_prime;
    let m = o.v + xs - eb;
    lemma_eqm_mul(se.p, se.p, p, m, q);
    let u = dot(se.u, o.a0);
    lemma_eqm_add(se.p * p, se.p * m, u, u, q);
    let rest = se.p * (eb - o.v - xs) - u;
    lemma_eqm_add(dot(se.z, gens.g), se.p * m + u, rest, rest, q);
    let pe = se.p;
    let v = o.v;
    assert(pe * (v + xs - eb) + pe * (eb - v - xs) == 0) by (nonlinear_arith);
}

// ---------------------------------------------------------------------------
// The ciphertexts
// ---------------------------------------------------------------------------

/// The batched ciphertexts under some coefficients.
proof fn lemma_batched_dot(a: Seq<int>, c1: Seq<int>, c2: Seq<int>, e: int, q: int)
    requires
        q > 1,
        c1.len() == c2.len(),
        c1.len() <= a.len(),
    ensures
        eqm(
            dot(a, at_least(batched(c1, c2, e, q), a.len() as int)),
            dot(a.take(c1.len() as int), c1) + e * dot(a.take(c1.len() as int), c2),
            q,
        ),
{
    let k = a.len() as int;
    let m = c1.len() as int;
    let bt = batched(c1, c2, e, q);
    let x = at_least(bt, k);
    let f = |i: int| a[i] * x[i];
    assert forall|i: int| m <= i < k implies #[trigger] f(i) == 0 by {
        assert(x[i] == 0);
        let v = a[i];
        assert(v * 0 == 0);
    }
    lemma_sum_truncate(k, m, f);
    let f1 = |i: int| a.take(m)[i] * c1[i];
    let f2 = |i: int| a.take(m)[i] * c2[i];
    let zero = |i: int| 0int;
    assert forall|i: int| 0 <= i < m implies eqm(
        #[trigger] f(i),
        1 * f1(i) + e * f2(i) + 0 * zero(i) + 0 * zero(i),
        q,
    ) by {
        let (v, u1, u2) = (a[i], c1[i], c2[i]);
        assert(x[i] == bt[i]);
        lemma_residue(u1 + u2 * e, q);
        lemma_eqm_mul(v, v, x[i], u1 + u2 * e, q);
        let ue = u2 * e;
        assert(v * (u1 + ue) == v * u1 + v * ue) by (nonlinear_arith);
        assert(v * (u2 * e) == e * (v * u2)) by (nonlinear_arith);
    }
    lemma_eqm_linear(m, f, 1, f1, e, f2, 0, zero, 0, zero, q);
}

/// The blinded inputs under one half of the ciphertexts.
proof fn lemma_lc_half(w: Witness, b: Blindings, x_prime: int, half: Seq<int>, q: int)
    requires
        q > 1,
        b.s_L_prime.len() == half.len(),
        half.len() <= w.v.len(),
    ensures
        eqm(
            dot(lc_vec(w, b, x_prime, q).take(half.len() as int), half),
            dot(w.v.take(half.len() as int), half) + x_prime * dot(b.s_L_prime, half),
            q,
        ),
{
    let m = half.len() as int;
    let wm = Witness { v: w.v.take(m), ..w };
    lemma_lc_dot(wm, b, x_prime, half, q);
    assert(lc_vec(wm, b, x_prime, q) =~= lc_vec(w, b, x_prime, q).take(m));
}

/// The folding argument for the ciphertexts.
proof fn lemma_eq_ciphertexts(
    w: Witness,
    b: Blindings,
    c: Challenges,
    gens: GensView,
    ct: Ciphertexts,
    o: Opened,
    s: Responses,
    st: Statement,
    se: EcpScalars,
    q: int,
)
    requires
        q > 1,
        ct.c1.len() == ct.c2.len(),
        b.s_L_prime.len() == ct.c1.len(),
        ct.c1.len() <= w.v.len(),
        se.z.len() == w.v.len(),
        st.c1 == ct.c1,
        st.c2 == ct.c2,
        eqm(st.c_0, dot(w.v.take(ct.c1.len() as int), ct.c1) + ct.r_prime * gens.b, q),
        eqm(st.c_1, dot(w.v.take(ct.c1.len() as int), ct.c2) + ct.r_prime * gens.f, q),
        o.s1_prime == md(b.rnd * gens.b + dot(b.s_L_prime, ct.c1), q),
        o.s2_prime == md(b.rnd * gens.f + dot(b.s_L_prime, ct.c2), q),
        s.r_blinding == md(ct.r_prime + b.rnd * c.x_prime, q),
        ({
            let x = at_least(batched(ct.c1, ct.c2, c.batch, q), w.v.len() as int);
            eqm(dot(se.z, x), se.p * dot(lc_vec(w, b, c.x_prime, q), x) + dot(se.u, o.a1), q)
        }),
    ensures
        eqm(eq_ciphertexts(o, s, c, gens, st, se), 0, q),
{
    let m = ct.c1.len() as int;
    let e = c.batch;
    let xp = c.x_prime;
    let lc = lc_vec(w, b, xp, q);
    let x = at_least(batched(ct.c1, ct.c2, e, q), w.v.len() as int);
    lemma_batched_dot(se.z, ct.c1, ct.c2, e, q);
    lemma_batched_dot(lc, ct.c1, ct.c2, e, q);
    lemma_lc_half(w, b, xp, ct.c1, q);
    lemma_lc_half(w, b, xp, ct.c2, q);
    let (v1, v2) = (dot(w.v.take(m), ct.c1), dot(w.v.take(m), ct.c2));
    let (s1, s2) = (dot(b.s_L_prime, ct.c1), dot(b.s_L_prime, ct.c2));
    let (l1, l2) = (dot(lc.take(m), ct.c1), dot(lc.take(m), ct.c2));
    let (rp, rnd, bb, ff) = (ct.r_prime, b.rnd, gens.b, gens.f);
    // What the blinded inputs make of the ciphertexts.
    lemma_eqm_mul(e, e, l2, v2 + xp * s2, q);
    lemma_eqm_add(l1, v1 + xp * s1, e * l2, e * (v2 + xp * s2), q);
    let target = v1 + xp * s1 + e * (v2 + xp * s2);
    assert(eqm(dot(lc, x), target, q));
    // What the proof says of it.
    lemma_residue(rp + rnd * xp, q);
    lemma_residue(rnd * bb + s1, q);
    lemma_residue(rnd * ff + s2, q);
    let rb = s.r_blinding;
    let rbe = rp + rnd * xp;
    lemma_eqm_mul(rb, rbe, bb, bb, q);
    lemma_eqm_mul(e, e, rb, rbe, q);
    lemma_eqm_mul(e * rb, e * rbe, ff, ff, q);
    lemma_eqm_add(rb * bb, rbe * bb, e * rb * ff, e * rbe * ff, q);
    lemma_eqm_sub(
        rb * bb + e * rb * ff,
        rbe * bb + e * rbe * ff,
        st.c_0,
        v1 + rp * bb,
        q,
    );
    lemma_eqm_mul(e, e, st.c_1, v2 + rp * ff, q);
    lemma_eqm_sub(
        rb * bb + e * rb * ff - st.c_0,
        rbe * bb + e * rbe * ff - (v1 + rp * bb),
        e * st.c_1,
        e * (v2 + rp * ff),
        q,
    );
    lemma_eqm_mul(xp, xp, o.s1_prime, rnd * bb + s1, q);
    lemma_eqm_sub(
        rb * bb + e * rb * ff - st.c_0 - e * st.c_1,
        rbe * bb + e * rbe * ff - (v1 + rp * bb) - e * (v2 + rp * ff),
        xp * o.s1_prime,
        xp * (rnd * bb + s1),
        q,
    );
    lemma_eqm_mul(e * xp, e * xp, o.s2_prime, rnd * ff + s2, q);
    let inner = rb * bb + e * rb * ff - st.c_0 - e * st.c_1 - xp * o.s1_prime - e * xp * o.s2_prime;
    let inner_e = rbe * bb + e * rbe * ff - (v1 + rp * bb) - e * (v2 + rp * ff) - xp * (rnd * bb + s1) - e * xp * (
    rnd * ff + s2);
    lemma_eqm_sub(
        rb * bb + e * rb * ff - st.c_0 - e * st.c_1 - xp * o.s1_prime,
        rbe * bb + e * rbe * ff - (v1 + rp * bb) - e * (v2 + rp * ff) - xp * (rnd * bb + s1),
        e * xp * o.s2_prime,
        e * xp * (rnd * ff + s2),
        q,
    );
    assert(inner_e == -target) by {
        assert(rbe * bb == rp * bb + (rnd * xp) * bb) by (nonlinear_arith)
            requires
                rbe == rp + rnd * xp,
        ;
        assert(e * rbe * ff == e * (rp * ff) + e * ((rnd * xp) * ff)) by (nonlinear_arith)
            requires
                rbe == rp + rnd * xp,
        ;
        assert(e * (v2 + rp * ff) == e * v2 + e * (rp * ff)) by (nonlinear_arith);
        assert(xp * (rnd * bb + s1) == (rnd * xp) * bb + xp * s1) by (nonlinear_arith);
        assert(e * xp * (rnd * ff + s2) == e * ((rnd * xp) * ff) + e * (xp * s2)) by (nonlinear_arith);
        assert(e * (v2 + xp * s2) == e * v2 + e * (xp * s2)) by (nonlinear_arith);
    }
    let pe = se.p;
    lemma_eqm_mul(pe, pe, inner, -target, q);
    lemma_eqm_mul(pe, pe, dot(lc, x), target, q);
    let u = dot(se.u, o.a1);
    lemma_eqm_add(pe * dot(lc, x), pe * target, u, u, q);
    let z1 = dot(se.z.take(m), ct.c1) + e * dot(se.z.take(m), ct.c2);
    assert(eqm(z1, pe * target + u, q));
    lemma_eqm_add(z1, pe * target + u, pe * inner, pe * -target, q);
    lemma_eqm_sub(z1 + pe * inner, pe * target + u + pe * -target, u, u, q);
    assert(pe * target + pe * -target == 0) by (nonlinear_arith);
}

// ---------------------------------------------------------------------------
// The inputs and their weights
// ---------------------------------------------------------------------------

/// `tc_x` opens what the proof commits to.
proof fn lemma_eq_inputs(
    w: Witness,
    b: Blindings,
    c: Challenges,
    gens: GensView,
    o: Opened,
    s: Responses,
    d0: int,
    d1: int,
    q: int,
)
    requires
        q > 1,
        o.t_2 == pedersen(gens, md(d0, q), b.t_2_blinding, q),
        o.t_1_prime == pedersen(gens, md(d1, q), b.t_1_prime_blinding, q),
        s.tc_x == md(d0 + c.x_prime * d1, q),
        s.tc_x_blinding == md(b.t_2_blinding + c.x_prime * b.t_1_prime_blinding, q),
    ensures
        eqm(eq_inputs(o, s, c, gens), 0, q),
{
    let (bb, bl, xp) = (gens.b, gens.b_blinding, c.x_prime);
    let (t2, t1) = (b.t_2_blinding, b.t_1_prime_blinding);
    lemma_pedersen(gens, d0, t2, q);
    lemma_pedersen(gens, d1, t1, q);
    lemma_residue(d0 + xp * d1, q);
    lemma_residue(t2 + xp * t1, q);
    lemma_eqm_mul(xp, xp, o.t_1_prime, bb * d1 + bl * t1, q);
    lemma_eqm_add(o.t_2, bb * d0 + bl * t2, xp * o.t_1_prime, xp * (bb * d1 + bl * t1), q);
    lemma_eqm_mul(s.tc_x, d0 + xp * d1, bb, bb, q);
    lemma_eqm_mul(s.tc_x_blinding, t2 + xp * t1, bl, bl, q);
    let e1 = bb * d0 + bl * t2 + xp * (bb * d1 + bl * t1);
    let e2 = (d0 + xp * d1) * bb;
    let e3 = (t2 + xp * t1) * bl;
    lemma_eqm_sub(o.t_2 + xp * o.t_1_prime, e1, s.tc_x * bb, e2, q);
    lemma_eqm_sub(o.t_2 + xp * o.t_1_prime - s.tc_x * bb, e1 - e2, s.tc_x_blinding * bl, e3, q);
    assert(e1 == e2 + e3) by {
        assert(xp * (bb * d1 + bl * t1) == (xp * d1) * bb + (xp * t1) * bl) by (nonlinear_arith);
        let (x1, x2) = (xp * d1, xp * t1);
        assert((d0 + x1) * bb == bb * d0 + x1 * bb) by (nonlinear_arith);
        assert((t2 + x2) * bl == bl * t2 + x2 * bl) by (nonlinear_arith);
    }
}

/// A Pedersen commitment to a residue.
proof fn lemma_pedersen(gens: GensView, value: int, blinding: int, q: int)
    requires
        q > 1,
    ensures
        eqm(pedersen(gens, md(value, q), blinding, q), gens.b * value + gens.b_blinding * blinding, q),
{
    let mv = md(value, q);
    lemma_residue(gens.b * mv + gens.b_blinding * blinding, q);
    lemma_residue(value, q);
    lemma_eqm_mul(gens.b, gens.b, mv, value, q);
    let x = gens.b_blinding * blinding;
    lemma_eqm_add(gens.b * mv, gens.b * value, x, x, q);
}

// ---------------------------------------------------------------------------
// The polynomial
// ---------------------------------------------------------------------------

/// One term of the quadratic coefficient of `t(X)`.
proof fn lemma_t2_term(
    a: int,
    ar: int,
    ao: int,
    wl: int,
    wr: int,
    wo: int,
    yp: int,
    yi: int,
    l1: int,
    r0: int,
    r1: int,
    q: int,
)
    requires
        q > 1,
        l1 == md(a + yi * wr, q),
        r0 == md(wo - yp, q),
        r1 == md(yp * ar + wl, q),
        eqm(yp * yi, 1, q),
    ensures
        eqm(
            l1 * r1 + ao * r0,
            1 * (wl * a) + 1 * (wr * ar) + 1 * (wo * ao) + 1 * ((wr * yi) * wl + yp * (a * ar - ao)),
            q,
        ),
{
    lemma_residue(a + yi * wr, q);
    lemma_residue(wo - yp, q);
    lemma_residue(yp * ar + wl, q);
    let (yw, ya) = (yi * wr, yp * ar);
    lemma_eqm_mul(l1, a + yw, r1, ya + wl, q);
    lemma_eqm_mul(ao, ao, r0, wo - yp, q);
    lemma_eqm_add(l1 * r1, (a + yw) * (ya + wl), ao * r0, ao * (wo - yp), q);
    // yi * wr * yp * ar = wr * ar
    lemma_eqm_mul(yp * yi, 1, wr * ar, wr * ar, q);
    assert((yp * yi) * (wr * ar) == (yi * wr) * (yp * ar)) by (nonlinear_arith);
    assert((a + yw) * (ya + wl) == a * ya + a * wl + yw * ya + yw * wl) by (nonlinear_arith);
    assert(ao * (wo - yp) == ao * wo - ao * yp) by (nonlinear_arith);
    assert(a * (yp * ar) == (a * ar) * yp) by (nonlinear_arith);
    assert(a * wl == wl * a) by (nonlinear_arith);
    assert(ao * wo == wo * ao) by (nonlinear_arith);
    assert((yi * wr) * wl == (wr * yi) * wl) by (nonlinear_arith);
    let k1 = a * ya + a * wl + yw * wl + ao * wo - ao * yp;
    lemma_eqm_add(k1, k1, yw * ya, 1 * (wr * ar), q);
    let p = a * ar;
    assert(yp * (p - ao) == p * yp - ao * yp) by (nonlinear_arith);
}

/// By how much the constraints and the multipliers are violated, weighted with
/// powers of two challenges.
pub open spec fn defect(w: Witness, y: int, z: int) -> int {
    sum(
        w.constraints.len() as int,
        |c: int| pow(z, (c + 1) as nat) * eval_terms(w.constraints[c], assignment(w)),
    ) + sum(w.a_L.len() as int, |i: int| pow(y, i as nat) * (w.a_L[i] * w.a_R[i] - w.a_O[i]))
}

/// Nothing is violated in a satisfied system.
proof fn lemma_no_defect(w: Witness, y: int, z: int, q: int)
    requires
        q > 1,
        constraints_in_range(w.constraints, w.a_L.len() as int, w.v.len() as int),
        w.a_L.len() == w.a_R.len() == w.a_O.len(),
        w.a_L.len() <= usize::MAX,
        w.v.len() <= usize::MAX,
        satisfied(w, q),
    ensures
        eqm(defect(w, y, z), 0, q),
{
    let n = w.a_L.len() as int;
    law_flattening(w, z);
    law_flattening_satisfied(w, z, q);
    let f = |i: int| pow(y, i as nat) * (w.a_L[i] * w.a_R[i] - w.a_O[i]);
    let zero = |i: int| 0int;
    assert forall|i: int| 0 <= i < n implies eqm(#[trigger] f(i), zero(i), q) by {
        assert(eqm(w.a_O[i], w.a_L[i] * w.a_R[i], q));
        let (p, m) = (pow(y, i as nat), w.a_L[i] * w.a_R[i]);
        lemma_eqm_sub(m, m, w.a_O[i], m, q);
        lemma_eqm_mul(p, p, m - w.a_O[i], 0, q);
        assert(p * 0 == 0);
    }
    lemma_eqm_sum(n, f, zero, q);
    lemma_sum_zero(n, zero);
    let whole = sum(
        w.constraints.len() as int,
        |c: int| pow(z, (c + 1) as nat) * eval_terms(w.constraints[c], assignment(w)),
    );
    lemma_eqm_add(whole, 0, sum(n, f), 0, q);
}

/// The quadratic coefficient of `t(X)` is what the weights and the inputs
/// make of it, and what is violated.
proof fn lemma_t2(w: Witness, b: Blindings, y: int, z: int, q: int)
    requires
        q > 1,
        w.a_L.len() == w.a_R.len() == w.a_O.len(),
        w.a_L.len() <= w.v.len() <= usize::MAX,
        constraints_in_range(w.constraints, w.a_L.len() as int, w.v.len() as int),
        invertible(y, q),
    ensures
        ({
            let p = polys(w, b, y, z, q);
            let f = flattened(w.constraints, w.a_L.len() as int, w.v.len() as int, y, z, q);
            eqm(
                dot(p.l1, p.r1) + dot(p.l2, p.r0),
                f.wc + delta(f) + dot(f.wv, w.v) + defect(w, y, z),
                q,
            )
        }),
{
    let n = w.a_L.len() as int;
    let k = w.v.len() as int;
    let cs = w.constraints;
    let p = polys(w, b, y, z, q);
    let f = flattened(cs, n, k, y, z, q);
    let fa = |i: int| p.l1[i] * p.r1[i];
    let fb = |i: int| p.l2[i] * p.r0[i];
    let fab = |i: int| fa(i) + fb(i);
    lemma_sum_add(n, fa, fb);
    lemma_sum_ext(n, fab, |i: int| fa(i) + fb(i));
    let gl = |i: int| f.wl[i] * w.a_L[i];
    let gr = |i: int| f.wr[i] * w.a_R[i];
    let go = |i: int| f.wo[i] * w.a_O[i];
    let gw = |i: int| (f.wr[i] * f.yi[i]) * f.wl[i];
    let gm = |i: int| md(pow(y, i as nat), q) * (w.a_L[i] * w.a_R[i] - w.a_O[i]);
    let gd = |i: int| gw(i) + gm(i);
    let viol = |i: int| pow(y, i as nat) * (w.a_L[i] * w.a_R[i] - w.a_O[i]);
    assert forall|i: int| 0 <= i < n implies eqm(
        #[trigger] fab(i),
        1 * gl(i) + 1 * gr(i) + 1 * go(i) + 1 * gd(i),
        q,
    ) by {
        lemma_powers_cancel(y, i, q);
        lemma_t2_term(
            w.a_L[i],
            w.a_R[i],
            w.a_O[i],
            f.wl[i],
            f.wr[i],
            f.wo[i],
            md(pow(y, i as nat), q),
            f.yi[i],
            p.l1[i],
            p.r0[i],
            p.r1[i],
            q,
        );
    }
    lemma_eqm_linear(n, fab, 1, gl, 1, gr, 1, go, 1, gd, q);
    assert(dot(p.l1, p.r1) == sum(n, fa));
    assert(dot(p.l2, p.r0) == sum(n, fb));
    lemma_sum_add(n, gw, gm);
    assert(delta(f) == sum(n, gw));
    assert forall|i: int| 0 <= i < n implies eqm(#[trigger] gm(i), viol(i), q) by {
        lemma_residue(pow(y, i as nat), q);
        let m = w.a_L[i] * w.a_R[i] - w.a_O[i];
        lemma_eqm_mul(md(pow(y, i as nat), q), pow(y, i as nat), m, m, q);
    }
    lemma_eqm_sum(n, gm, viol, q);
    // The weights of the multipliers.
    lemma_weighted(w, z, Kind::Left, f.wl, q);
    lemma_weighted(w, z, Kind::Right, f.wr, q);
    lemma_weighted(w, z, Kind::Output, f.wo, q);
    law_flattening(w, z);
    let whole = sum(
        cs.len() as int,
        |c: int| pow(z, (c + 1) as nat) * eval_terms(cs[c], assignment(w)),
    );
    let (wl, wr, wo, wi, w1) = (
        weighted_values(w, z, Kind::Left),
        weighted_values(w, z, Kind::Right),
        weighted_values(w, z, Kind::Output),
        weighted_values(w, z, Kind::Input),
        weight(cs, z, Variable::One()),
    );
    lemma_eqm_add(sum(n, gl), wl, sum(n, gr), wr, q);
    lemma_eqm_add(sum(n, gl) + sum(n, gr), wl + wr, sum(n, go), wo, q);
    // The weights of the inputs, negated.
    let gv = |i: int| f.wv[i] * w.v[i];
    let hv = |i: int| weight(cs, z, variable(Kind::Input, i)) * w.v[i];
    let zero = |i: int| 0int;
    assert forall|i: int| 0 <= i < k implies eqm(
        #[trigger] gv(i),
        (0 - 1) * hv(i) + 0 * zero(i) + 0 * zero(i) + 0 * zero(i),
        q,
    ) by {
        let (x, v) = (weight(cs, z, variable(Kind::Input, i)), w.v[i]);
        lemma_residue(-x, q);
        lemma_eqm_mul(f.wv[i], -x, v, v, q);
        assert((-x) * v == (0 - 1) * (x * v)) by (nonlinear_arith);
    }
    lemma_eqm_linear(k, gv, 0 - 1, hv, 0, zero, 0, zero, 0, zero, q);
    assert(dot(f.wv, w.v) == sum(k, gv));
    assert(wi == sum(k, hv));
    lemma_residue(-w1, q);
    lemma_eqm_add(dot(f.wv, w.v), (0 - 1) * wi, f.wc, -w1, q);
    let rhs = dot(f.wv, w.v) + f.wc;
    let lhs = sum(n, gl) + sum(n, gr) + sum(n, go);
    assert(whole == wl + wr + wo + wi + w1);
    assert((0 - 1) * wi == -wi) by (nonlinear_arith);
    lemma_eqm_add(rhs, -wi - w1, whole, whole, q);
    assert(eqm(lhs, rhs + whole, q));
    let d = delta(f);
    lemma_eqm_add(lhs, rhs + whole, d, d, q);
    lemma_eqm_add(lhs + d, rhs + whole + d, sum(n, gm), sum(n, viol), q);
}

/// The reduced weights of a kind of variables.
proof fn lemma_weighted(w: Witness, z: int, kind: Kind, wt: Seq<int>, q: int)
    requires
        q > 1,
        wt.len() == values_of(w, kind).len(),
        forall|i: int|
            0 <= i < wt.len() ==> #[trigger] wt[i] == md(weight(w.constraints, z, variable(kind, i)), q),
    ensures
        eqm(
            sum(wt.len() as int, |i: int| wt[i] * values_of(w, kind)[i]),
            weighted_values(w, z, kind),
            q,
        ),
{
    let vals = values_of(w, kind);
    let f = |i: int| wt[i] * vals[i];
    let g = |i: int| weight(w.constraints, z, variable(kind, i)) * vals[i];
    assert forall|i: int| 0 <= i < wt.len() implies eqm(#[trigger] f(i), g(i), q) by {
        let x = weight(w.constraints, z, variable(kind, i));
        assert(wt[i] == md(x, q));
        lemma_residue(x, q);
        lemma_eqm_mul(wt[i], x, vals[i], vals[i], q);
    }
    lemma_eqm_sum(wt.len() as int, f, g, q);
}

/// A polynomial of degree 6 without a constant coefficient, expanded.
proof fn lemma_eval6(t: TPoly, x: int)
    ensures
        eval6(t, x) == x * t.t1 + x * x * t.t2 + x * x * x * t.t3 + x * x * x * x * t.t4 + x * x * x * x * x * t.t5
            + x * x * x * x * x * x * t.t6,
{
    let h6 = x * t.t6;
    let h5 = x * (t.t5 + h6);
    let h4 = x * (t.t4 + h5);
    let h3 = x * (t.t3 + h4);
    let h2 = x * (t.t2 + h3);
    let (x2, x3, x4, x5) = (x * x, x * x * x, x * x * x * x, x * x * x * x * x);
    lemma_horner(x, t.t1, h2);
    lemma_horner_next(x, x, t.t2, h3);
    lemma_horner_next(x2, x, t.t3, h4);
    lemma_horner_next(x3, x, t.t4, h5);
    lemma_horner_next(x4, x, t.t5, h6);
    assert(x5 * (x * t.t6) == (x5 * x) * t.t6) by (nonlinear_arith);
}

proof fn lemma_horner(x: int, a: int, rest: int)
    by (nonlinear_arith)
    ensures
        x * (a + rest) == x * a + x * rest,
{
}

proof fn lemma_horner_next(p: int, x: int, a: int, rest: int)
    by (nonlinear_arith)
    ensures
        p * (x * (a + rest)) == (p * x) * a + (p * x) * rest,
{
}

/// One commitment to a coefficient, times a power of `x`.
proof fn lemma_t_term(gens: GensView, t: int, bl: int, point: int, xp: int, q: int)
    requires
        q > 1,
        point == pedersen(gens, t, bl, q),
    ensures
        eqm(xp * point, gens.b * (xp * t) + gens.b_blinding * (xp * bl), q),
{
    let e = gens.b * t + gens.b_blinding * bl;
    lemma_residue(e, q);
    lemma_eqm_mul(xp, xp, point, e, q);
    let (g, h) = (gens.b, gens.b_blinding);
    assert(xp * (g * t + h * bl) == g * (xp * t) + h * (xp * bl)) by (nonlinear_arith);
}

/// `t_x` opens what the proof commits to.
proof fn lemma_eq_polynomial(
    b: Blindings,
    c: Challenges,
    gens: GensView,
    o: Opened,
    s: Responses,
    f: Flattened,
    t: TPoly,
    m2: int,
    excess: int,
    q: int,
)
    requires
        q > 1,
        o.t_1 == pedersen(gens, t.t1, b.t_1_blinding, q),
        o.t_2 == pedersen(gens, m2, b.t_2_blinding, q),
        o.t_3 == pedersen(gens, t.t3, b.t_3_blinding, q),
        o.t_4 == pedersen(gens, t.t4, b.t_4_blinding, q),
        o.t_5 == pedersen(gens, t.t5, b.t_5_blinding, q),
        o.t_6 == pedersen(gens, t.t6, b.t_6_blinding, q),
        s.t_x == md(eval6(t, c.x), q),
        s.t_x_blinding == md(eval6(t_blindings(b), c.x), q),
        eqm(t.t2, f.wc + delta(f) + m2 + excess, q),
    ensures
        eqm(eq_polynomial(o, s, f, c, gens), -(gens.b * (c.x * c.x * excess)), q),
{
    let x = c.x;
    let (x2, x3, x4, x5, x6) = (
        x * x,
        x * x * x,
        x * x * x * x,
        x * x * x * x * x,
        x * x * x * x * x * x,
    );
    let (g, h) = (gens.b, gens.b_blinding);
    let tb = t_blindings(b);
    lemma_t_term(gens, t.t1, tb.t1, o.t_1, x, q);
    lemma_t_term(gens, m2, tb.t2, o.t_2, x2, q);
    lemma_t_term(gens, t.t3, tb.t3, o.t_3, x3, q);
    lemma_t_term(gens, t.t4, tb.t4, o.t_4, x4, q);
    lemma_t_term(gens, t.t5, tb.t5, o.t_5, x5, q);
    lemma_t_term(gens, t.t6, tb.t6, o.t_6, x6, q);
    let (a1, a2, a3, a4, a5, a6) = (x * t.t1, x2 * m2, x3 * t.t3, x4 * t.t4, x5 * t.t5, x6 * t.t6);
    let (b1, b2, b3, b4, b5, b6) = (
        x * tb.t1,
        x2 * tb.t2,
        x3 * tb.t3,
        x4 * tb.t4,
        x5 * tb.t5,
        x6 * tb.t6,
    );
    // The constant part.
    lemma_eval6(t, x);
    lemma_eval6(tb, x);
    let wcd = f.wc + delta(f);
    let ev = eval6(t, x);
    let eb = eval6(tb, x);
    lemma_residue(ev, q);
    lemma_residue(eb, q);
    lemma_eqm_sub(x2 * wcd, x2 * wcd, s.t_x, ev, q);
    lemma_eqm_mul(x2 * wcd - s.t_x, x2 * wcd - ev, g, g, q);
    lemma_eqm_mul(s.t_x_blinding, eb, h, h, q);
    let c0 = (x2 * wcd - ev) * g - eb * h;
    lemma_eqm_sub((x2 * wcd - s.t_x) * g, (x2 * wcd - ev) * g, s.t_x_blinding * h, eb * h, q);
    let s0 = (x2 * wcd - s.t_x) * g - s.t_x_blinding * h;
    lemma_eqm_add(s0, c0, x * o.t_1, g * a1 + h * b1, q);
    let c1 = c0 + (g * a1 + h * b1);
    lemma_eqm_add(s0 + x * o.t_1, c1, x2 * o.t_2, g * a2 + h * b2, q);
    let c2 = c1 + (g * a2 + h * b2);
    lemma_eqm_add(s0 + x * o.t_1 + x2 * o.t_2, c2, x3 * o.t_3, g * a3 + h * b3, q);
    let c3 = c2 + (g * a3 + h * b3);
    lemma_eqm_add(s0 + x * o.t_1 + x2 * o.t_2 + x3 * o.t_3, c3, x4 * o.t_4, g * a4 + h * b4, q);
    let c4 = c3 + (g * a4 + h * b4);
    lemma_eqm_add(
        s0 + x * o.t_1 + x2 * o.t_2 + x3 * o.t_3 + x4 * o.t_4,
        c4,
        x5 * o.t_5,
        g * a5 + h * b5,
        q,
    );
    let c5 = c4 + (g * a5 + h * b5);
    lemma_eqm_add(
        s0 + x * o.t_1 + x2 * o.t_2 + x3 * o.t_3 + x4 * o.t_4 + x5 * o.t_5,
        c5,
        x6 * o.t_6,
        g * a6 + h * b6,
        q,
    );
    let c6 = c5 + (g * a6 + h * b6);
    assert(eqm(eq_polynomial(o, s, f, c, gens), c6, q));
    // All but the quadratic terms cancel.
    let q2 = x2 * t.t2;
    let xw = x2 * wcd;
    assert((xw - (a1 + q2 + a3 + a4 + a5 + a6)) * g == g * xw - g * a1 - g * q2 - g * a3 - g * a4 - g * a5 - g
        * a6) by (nonlinear_arith);
    assert((b1 + b2 + b3 + b4 + b5 + b6) * h == h * b1 + h * b2 + h * b3 + h * b4 + h * b5 + h * b6)
        by (nonlinear_arith);
    assert(c6 == g * xw - g * q2 + g * a2);
    let d = wcd + m2 + excess;
    lemma_eqm_mul(x2, x2, t.t2, d, q);
    lemma_eqm_mul(g, g, q2, x2 * d, q);
    let gx = g * xw + g * a2;
    lemma_eqm_sub(gx, gx, g * q2, g * (x2 * d), q);
    assert(g * (x2 * (wcd + m2 + excess)) == g * (x2 * wcd) + g * (x2 * m2) + g * (x2 * excess))
        by (nonlinear_arith);
}

// ---------------------------------------------------------------------------
// The inner product
// ---------------------------------------------------------------------------

/// A vector that is a combination of four others has their inner products,
/// combined in the same way.
pub proof fn lemma_dot_linear(
    a: Seq<int>,
    c0: int,
    a0: Seq<int>,
    c1: int,
    a1: Seq<int>,
    c2: int,
    a2: Seq<int>,
    c3: int,
    a3: Seq<int>,
    g: Seq<int>,
    q: int,
)
    requires
        q > 1,
        a.len() == a0.len() == a1.len() == a2.len() == a3.len(),
        forall|i: int|
            0 <= i < a.len() ==> eqm(#[trigger] a[i], c0 * a0[i] + c1 * a1[i] + c2 * a2[i] + c3 * a3[i], q),
    ensures
        eqm(dot(a, g), c0 * dot(a0, g) + c1 * dot(a1, g) + c2 * dot(a2, g) + c3 * dot(a3, g), q),
{
    let f = |i: int| a[i] * g[i];
    let f0 = |i: int| a0[i] * g[i];
    let f1 = |i: int| a1[i] * g[i];
    let f2 = |i: int| a2[i] * g[i];
    let f3 = |i: int| a3[i] * g[i];
    assert forall|i: int| 0 <= i < a.len() implies eqm(
        #[trigger] f(i),
        c0 * f0(i) + c1 * f1(i) + c2 * f2(i) + c3 * f3(i),
        q,
    ) by {
        let (u0, u1, u2, u3, v) = (a0[i], a1[i], a2[i], a3[i], g[i]);
        let (w0, w1, w2, w3) = (c0 * u0, c1 * u1, c2 * u2, c3 * u3);
        lemma_eqm_mul(a[i], w0 + w1 + w2 + w3, v, v, q);
        assert((w0 + w1 + w2 + w3) * v == w0 * v + w1 * v + w2 * v + w3 * v) by (nonlinear_arith);
        assert((c0 * u0) * v == c0 * (u0 * v)) by (nonlinear_arith);
        assert((c1 * u1) * v == c1 * (u1 * v)) by (nonlinear_arith);
        assert((c2 * u2) * v == c2 * (u2 * v)) by (nonlinear_arith);
        assert((c3 * u3) * v == c3 * (u3 * v)) by (nonlinear_arith);
    }
    lemma_eqm_linear(a.len() as int, f, c0, f0, c1, f1, c2, f2, c3, f3, q);
}

/// A vector whose entries from `n` on are zero.
proof fn lemma_dot_take(a: Seq<int>, g: Seq<int>, n: int)
    requires
        0 <= n <= a.len(),
        forall|i: int| n <= i < a.len() ==> #[trigger] a[i] == 0,
    ensures
        dot(a, g) == dot(a.take(n), g),
{
    let f = |i: int| a[i] * g[i];
    assert forall|i: int| n <= i < a.len() implies #[trigger] f(i) == 0 by {
        assert(a[i] == 0);
        let v = g[i];
        assert(0 * v == 0);
    }
    lemma_sum_truncate(a.len() as int, n, f);
    lemma_sum_ext(n, f, |i: int| a.take(n)[i] * g[i]);
}

/// The bases `H_i` times powers of the inverse of `y`.
proof fn lemma_h_prime(f: Flattened, s: Seq<int>, h: Seq<int>, y: int, q: int)
    requires
        q > 1,
        s.len() == f.k,
        f.yi == powers_of(inv_mod(y, q), f.k, q),
    ensures
        eqm(dot(s, h_prime(h, f.k, y, q)), sum_folded(f, h, s), q),
{
    let hp = h_prime(h, f.k, y, q);
    let u = |i: int| s[i] * hp[i];
    let v = |i: int| (f.yi[i] * s[i]) * h[i];
    assert forall|i: int| 0 <= i < f.k implies eqm(#[trigger] u(i), v(i), q) by {
        let (yi, si, hi) = (f.yi[i], s[i], h[i]);
        assert(hp[i] == md(hi * yi, q));
        lemma_residue(hi * yi, q);
        lemma_eqm_mul(si, si, hp[i], hi * yi, q);
        assert(si * (hi * yi) == (yi * si) * hi) by (nonlinear_arith);
    }
    lemma_eqm_sum(f.k, u, v, q);
}

/// `l(x)` under some bases.
proof fn lemma_l_dot(w: Witness, p: Polys, x: int, g: Seq<int>, q: int)
    requires
        q > 1,
        w.a_L.len() <= w.v.len(),
        p.l1.len() == p.l2.len() == p.l3.len() == w.a_L.len(),
    ensures
        eqm(
            dot(l_vec(w, p, x, q), g),
            x * dot(p.l1, g) + (x * x) * dot(p.l2, g) + (x * x * x) * dot(p.l3, g),
            q,
        ),
{
    let n = w.a_L.len() as int;
    let l = l_vec(w, p, x, q);
    lemma_dot_take(l, g, n);
    let lt = l.take(n);
    assert forall|i: int| 0 <= i < n implies eqm(
        #[trigger] lt[i],
        x * p.l1[i] + (x * x) * p.l2[i] + (x * x * x) * p.l3[i] + 0 * p.l3[i],
        q,
    ) by {
        let (u, v, t) = (p.l1[i], p.l2[i], p.l3[i]);
        lemma_residue(0 + x * (u + x * (v + x * t)), q);
        let h2 = x * (v + x * t);
        lemma_horner(x, u, h2);
        lemma_horner_next(x, x, v, x * t);
        assert((x * x) * (x * t) == (x * x * x) * t) by (nonlinear_arith);
    }
    lemma_dot_linear(lt, x, p.l1, x * x, p.l2, x * x * x, p.l3, 0, p.l3, g, q);
}

/// `l1` under the bases `G_i`.
proof fn lemma_l1_dot(w: Witness, b: Blindings, f: Flattened, y: int, z: int, g: Seq<int>, q: int)
    requires
        q > 1,
        w.a_L.len() <= w.v.len(),
        f == flattened(w.constraints, w.a_L.len() as int, w.v.len() as int, y, z, q),
    ensures
        eqm(dot(polys(w, b, y, z, q).l1, g), dot(w.a_L, g) + sum_right(f, g), q),
{
    let n = w.a_L.len() as int;
    let l1 = polys(w, b, y, z, q).l1;
    let u = |i: int| l1[i] * g[i];
    let u0 = |i: int| w.a_L[i] * g[i];
    let u1 = |i: int| (f.yi[i] * at(f.wr, i)) * g[i];
    let zero = |i: int| 0int;
    assert forall|i: int| 0 <= i < n implies eqm(
        #[trigger] u(i),
        1 * u0(i) + 1 * u1(i) + 0 * zero(i) + 0 * zero(i),
        q,
    ) by {
        let (a, yw, v) = (w.a_L[i], f.yi[i] * f.wr[i], g[i]);
        lemma_residue(a + yw, q);
        lemma_eqm_mul(l1[i], a + yw, v, v, q);
        assert((a + yw) * v == a * v + yw * v) by (nonlinear_arith);
    }
    lemma_eqm_linear(n, u, 1, u0, 1, u1, 0, zero, 0, zero, q);
    assert forall|i: int| n <= i < f.k implies #[trigger] u1(i) == 0 by {
        let (yi, v) = (f.yi[i], g[i]);
        assert((yi * 0) * v == 0) by (nonlinear_arith);
    }
    lemma_sum_truncate(f.k, n, u1);
}

/// One entry of `r(x)` under its base.
proof fn lemma_r_term(
    ar: int,
    sr: int,
    wl: int,
    wo: int,
    yp: int,
    yi: int,
    x: int,
    h: int,
    r: int,
    hp: int,
    q: int,
)
    requires
        q > 1,
        eqm(yp * yi, 1, q),
        eqm(r, (wo - yp) + x * (yp * ar + wl) + (x * x * x) * (yp * sr), q),
        hp == md(h * yi, q),
    ensures
        eqm(
            r * hp,
            1 * ((yi * (x * wl + wo) - 1) * h) + x * (ar * h) + (x * x * x) * (sr * h) + 0 * 0,
            q,
        ),
{
    lemma_residue(h * yi, q);
    let x3 = x * x * x;
    let xw = x * wl + wo;
    let e = x * ar + x3 * sr - 1;
    let rr = (wo - yp) + x * (yp * ar + wl) + x3 * (yp * sr);
    assert(rr == xw + yp * e) by {
        assert(x * (yp * ar + wl) == yp * (x * ar) + x * wl) by (nonlinear_arith);
        assert(x3 * (yp * sr) == yp * (x3 * sr)) by (nonlinear_arith);
        let (a1, a2) = (x * ar, x3 * sr);
        assert(yp * (a1 + a2 - 1) == yp * a1 + yp * a2 - yp) by (nonlinear_arith);
    }
    let hy = h * yi;
    lemma_eqm_mul(r, xw + yp * e, hp, hy, q);
    lemma_eqm_mul(yp * yi, 1, e * h, e * h, q);
    assert((xw + yp * e) * (h * yi) == (yi * xw) * h + (yp * yi) * (e * h)) by (nonlinear_arith);
    let yx = (yi * xw) * h;
    lemma_eqm_add(yx, yx, (yp * yi) * (e * h), 1 * (e * h), q);
    let (a1, a2) = (x * ar, x3 * sr);
    assert((a1 + a2 - 1) * h == a1 * h + a2 * h - h) by (nonlinear_arith);
    assert((x * ar) * h == x * (ar * h)) by (nonlinear_arith);
    assert((x3 * sr) * h == x3 * (sr * h)) by (nonlinear_arith);
    let yw = yi * xw;
    assert((yw - 1) * h == yw * h - h) by (nonlinear_arith);
}

/// `r(x)` under the bases `H_i` times powers of the inverse of `y`.
proof fn lemma_r_dot(
    w: Witness,
    b: Blindings,
    f: Flattened,
    y: int,
    z: int,
    x: int,
    h: Seq<int>,
    q: int,
)
    requires
        q > 1,
        w.a_L.len() == w.a_R.len() == b.s_R.len(),
        w.a_L.len() <= w.v.len(),
        f == flattened(w.constraints, w.a_L.len() as int, w.v.len() as int, y, z, q),
        invertible(y, q),
    ensures
        eqm(
            dot(r_vec(w, polys(w, b, y, z, q), y, x, q), h_prime(h, w.v.len() as int, y, q)),
            sum_left_output(f, h, x) + x * dot(w.a_R, h) + (x * x * x) * dot(b.s_R, h),
            q,
        ),
{
    let n = w.a_L.len() as int;
    let k = w.v.len() as int;
    let p = polys(w, b, y, z, q);
    let r = r_vec(w, p, y, x, q);
    let hp = h_prime(h, k, y, q);
    let u = |i: int| r[i] * hp[i];
    let u0 = |i: int| (f.yi[i] * (x * at(f.wl, i) + at(f.wo, i)) - 1) * h[i];
    let u1 = |i: int| at(w.a_R, i) * h[i];
    let u2 = |i: int| at(b.s_R, i) * h[i];
    let zero = |i: int| 0int;
    assert forall|i: int| 0 <= i < k implies eqm(
        #[trigger] u(i),
        1 * u0(i) + x * u1(i) + (x * x * x) * u2(i) + 0 * zero(i),
        q,
    ) by {
        let yp = md(pow(y, i as nat), q);
        lemma_powers_cancel(y, i, q);
        lemma_residue(pow(y, i as nat), q);
        let (ar, sr, wl, wo) = (at(w.a_R, i), at(b.s_R, i), at(f.wl, i), at(f.wo, i));
        if i < n {
            let (r0, r1, r3) = (p.r0[i], p.r1[i], p.r3[i]);
            lemma_residue(r0 + x * (r1 + x * (0 + x * r3)), q);
            lemma_horner(x, r1, x * (0 + x * r3));
            assert(x * (x * (0 + x * r3)) == (x * x * x) * r3) by (nonlinear_arith);
            lemma_residue(wo - yp, q);
            lemma_residue(yp * ar + wl, q);
            lemma_residue(yp * sr, q);
            lemma_eqm_mul(x, x, r1, yp * ar + wl, q);
            lemma_eqm_mul(x * x * x, x * x * x, r3, yp * sr, q);
            lemma_eqm_add(r0, wo - yp, x * r1, x * (yp * ar + wl), q);
            lemma_eqm_add(
                r0 + x * r1,
                (wo - yp) + x * (yp * ar + wl),
                (x * x * x) * r3,
                (x * x * x) * (yp * sr),
                q,
            );
        } else {
            let y0 = pow(y, i as nat);
            lemma_residue(-y0, q);
            lemma_eqm_sub(0, 0, yp, y0, q);
            assert(yp * 0 == 0);
            assert(x * 0 == 0);
            assert((x * x * x) * 0 == 0) by (nonlinear_arith);
        }
        lemma_r_term(ar, sr, wl, wo, yp, f.yi[i], x, h[i], r[i], hp[i], q);
    }
    lemma_eqm_linear(k, u, 1, u0, x, u1, x * x * x, u2, 0, zero, q);
    assert forall|i: int| n <= i < k implies #[trigger] u1(i) == 0 && u2(i) == 0 by {
        let v = h[i];
        assert(0 * v == 0);
    }
    assert forall|i: int| n <= i < k implies #[trigger] u2(i) == 0 by {
        assert(u1(i) == 0);
    }
    lemma_sum_truncate(k, n, u1);
    lemma_sum_truncate(k, n, u2);
    lemma_sum_ext(n, u1, |i: int| w.a_R[i] * h[i]);
    lemma_sum_ext(n, u2, |i: int| b.s_R[i] * h[i]);
}

/// One coefficient of `l(X)` against `r(x)`.
proof fn lemma_l_against_r(w: Witness, p: Polys, a: Seq<int>, y: int, x: int, q: int)
    requires
        q > 1,
        w.a_L.len() <= w.v.len(),
        a.len() == p.r0.len() == p.r1.len() == p.r3.len() == w.a_L.len(),
    ensures
        eqm(
            dot(a, r_vec(w, p, y, x, q)),
            dot(a, p.r0) + x * dot(a, p.r1) + (x * x * x) * dot(a, p.r3),
            q,
        ),
{
    let n = w.a_L.len() as int;
    let r = r_vec(w, p, y, x, q);
    let rt = r.take(n);
    assert forall|i: int| 0 <= i < n implies eqm(
        #[trigger] rt[i],
        1 * p.r0[i] + x * p.r1[i] + (x * x * x) * p.r3[i] + 0 * p.r3[i],
        q,
    ) by {
        let (r0, r1, r3) = (p.r0[i], p.r1[i], p.r3[i]);
        lemma_residue(r0 + x * (r1 + x * (0 + x * r3)), q);
        lemma_horner(x, r1, x * (0 + x * r3));
        assert(x * (x * (0 + x * r3)) == (x * x * x) * r3) by (nonlinear_arith);
    }
    lemma_dot_linear(rt, 1, p.r0, x, p.r1, x * x * x, p.r3, 0, p.r3, a, q);
    lemma_sum_ext(n, |i: int| a[i] * r[i], |i: int| a[i] * rt[i]);
    lemma_dot_symmetric(a, rt);
    lemma_dot_symmetric(a, p.r0);
    lemma_dot_symmetric(a, p.r1);
    lemma_dot_symmetric(a, p.r3);
}

/// `<l(x), r(x)>` is `t(x)`.
pub proof fn lemma_product(w: Witness, p: Polys, y: int, x: int, q: int)
    requires
        q > 1,
        w.a_L.len() <= w.v.len(),
        p.l1.len() == p.l2.len() == p.l3.len() == p.r0.len() == p.r1.len() == p.r3.len() == w.a_L.len(),
    ensures
        eqm(dot(l_vec(w, p, x, q), r_vec(w, p, y, x, q)), eval6(t_poly(p, q), x), q),
{
    let r = r_vec(w, p, y, x, q);
    let t = t_poly(p, q);
    lemma_l_dot(w, p, x, r, q);
    lemma_l_against_r(w, p, p.l1, y, x, q);
    lemma_l_against_r(w, p, p.l2, y, x, q);
    lemma_l_against_r(w, p, p.l3, y, x, q);
    let (a0, a1, a3) = (dot(p.l1, p.r0), dot(p.l1, p.r1), dot(p.l1, p.r3));
    let (b0, b1, b3) = (dot(p.l2, p.r0), dot(p.l2, p.r1), dot(p.l2, p.r3));
    let (d0, d1, d3) = (dot(p.l3, p.r0), dot(p.l3, p.r1), dot(p.l3, p.r3));
    let (x2, x3, x4, x5, x6) = (
        x * x,
        x * x * x,
        x * x * x * x,
        x * x * x * x * x,
        x * x * x * x * x * x,
    );
    let (ea, eb, ed) = (
        a0 + x * a1 + x3 * a3,
        b0 + x * b1 + x3 * b3,
        d0 + x * d1 + x3 * d3,
    );
    lemma_eqm_mul(x, x, dot(p.l1, r), ea, q);
    lemma_eqm_mul(x2, x2, dot(p.l2, r), eb, q);
    lemma_eqm_mul(x3, x3, dot(p.l3, r), ed, q);
    lemma_eqm_add(x * dot(p.l1, r), x * ea, x2 * dot(p.l2, r), x2 * eb, q);
    lemma_eqm_add(
        x * dot(p.l1, r) + x2 * dot(p.l2, r),
        x * ea + x2 * eb,
        x3 * dot(p.l3, r),
        x3 * ed,
        q,
    );
    // The same, by powers of x.
    lemma_eval6(t, x);
    lemma_residue(a0, q);
    lemma_residue(a1 + b0, q);
    lemma_residue(b1 + d0, q);
    lemma_residue(a3 + d1, q);
    lemma_residue(b3, q);
    lemma_residue(d3, q);
    lemma_eqm_mul(x, x, t.t1, a0, q);
    lemma_eqm_mul(x2, x2, t.t2, a1 + b0, q);
    lemma_eqm_mul(x3, x3, t.t3, b1 + d0, q);
    lemma_eqm_mul(x4, x4, t.t4, a3 + d1, q);
    lemma_eqm_mul(x5, x5, t.t5, b3, q);
    lemma_eqm_mul(x6, x6, t.t6, d3, q);
    let (e1, e2, e3, e4, e5, e6) = (
        x * a0,
        x2 * (a1 + b0),
        x3 * (b1 + d0),
        x4 * (a3 + d1),
        x5 * b3,
        x6 * d3,
    );
    let (s1, s2, s3, s4, s5, s6) = (
        x * t.t1,
        x2 * t.t2,
        x3 * t.t3,
        x4 * t.t4,
        x5 * t.t5,
        x6 * t.t6,
    );
    lemma_eqm_add(s1, e1, s2, e2, q);
    lemma_eqm_add(s1 + s2, e1 + e2, s3, e3, q);
    lemma_eqm_add(s1 + s2 + s3, e1 + e2 + e3, s4, e4, q);
    lemma_eqm_add(s1 + s2 + s3 + s4, e1 + e2 + e3 + e4, s5, e5, q);
    lemma_eqm_add(s1 + s2 + s3 + s4 + s5, e1 + e2 + e3 + e4 + e5, s6, e6, q);
    assert(x * ea + x2 * eb + x3 * ed == e1 + e2 + e3 + e4 + e5 + e6) by {
        lemma_by_powers(x, a0, a1, a3);
        lemma_by_powers_next(x, x, b0, b1, b3);
        lemma_by_powers_next(x2, x, d0, d1, d3);
        assert(x2 * (a1 + b0) == x2 * a1 + x2 * b0) by (nonlinear_arith);
        assert(x3 * (b1 + d0) == x3 * b1 + x3 * d0) by (nonlinear_arith);
        assert(x4 * (a3 + d1) == x4 * a3 + x4 * d1) by (nonlinear_arith);
    }
}

proof fn lemma_by_powers(x: int, u0: int, u1: int, u3: int)
    ensures
        x * (u0 + x * u1 + (x * x * x) * u3) == x * u0 + (x * x) * u1 + (x * x * x * x) * u3,
{
    let x3 = x * x * x;
    let (v1, v3) = (x * u1, x3 * u3);
    assert(x * (u0 + v1 + v3) == x * u0 + x * v1 + x * v3) by (nonlinear_arith);
    assert(x * (x * u1) == (x * x) * u1) by (nonlinear_arith);
    assert(x * (x3 * u3) == (x3 * x) * u3) by (nonlinear_arith);
}

proof fn lemma_by_powers_next(p: int, x: int, u0: int, u1: int, u3: int)
    ensures
        (p * x) * (u0 + x * u1 + (x * x * x) * u3) == (p * x) * u0 + (p * x * x) * u1 + (p * x * x * x * x) * u3,
{
    let x3 = x * x * x;
    let y = p * x;
    let (v1, v3) = (x * u1, x3 * u3);
    assert(y * (u0 + v1 + v3) == y * u0 + y * v1 + y * v3) by (nonlinear_arith);
    assert(y * (x * u1) == (y * x) * u1) by (nonlinear_arith);
    assert(y * (x3 * u3) == (y * x3) * u3) by (nonlinear_arith);
    assert(y * (x * x * x) == y * x * x * x) by (nonlinear_arith);
}

/// The points of the circuit, without their blinding factors.
proof fn lemma_circuit_points(
    b: Blindings,
    bb: int,
    x: int,
    a_i: int,
    a_o: int,
    s: int,
    e: int,
    da_l: int,
    da_r: int,
    da_o: int,
    ds_l: int,
    ds_r: int,
    q: int,
)
    requires
        q > 1,
        a_i == md(b.i_blinding * bb + da_l + da_r, q),
        a_o == md(b.o_blinding * bb + da_o, q),
        s == md(b.s_blinding * bb + ds_l + ds_r, q),
        e == md(x * (b.i_blinding + x * (b.o_blinding + x * b.s_blinding)), q),
    ensures
        eqm(
            x * a_i + x * x * a_o + x * x * x * s - e * bb,
            x * da_l + x * da_r + x * x * da_o + x * x * x * ds_l + x * x * x * ds_r,
            q,
        ),
{
    let (ib, ob, sb) = (b.i_blinding, b.o_blinding, b.s_blinding);
    let (x2, x3) = (x * x, x * x * x);
    let (pi, po, ps) = (ib * bb + da_l + da_r, ob * bb + da_o, sb * bb + ds_l + ds_r);
    let ev = x * (ib + x * (ob + x * sb));
    lemma_residue(pi, q);
    lemma_residue(po, q);
    lemma_residue(ps, q);
    lemma_residue(ev, q);
    lemma_eqm_mul(x, x, a_i, pi, q);
    lemma_eqm_mul(x2, x2, a_o, po, q);
    lemma_eqm_mul(x3, x3, s, ps, q);
    lemma_eqm_mul(e, ev, bb, bb, q);
    lemma_eqm_add(x * a_i, x * pi, x2 * a_o, x2 * po, q);
    lemma_eqm_add(x * a_i + x2 * a_o, x * pi + x2 * po, x3 * s, x3 * ps, q);
    lemma_eqm_sub(x * a_i + x2 * a_o + x3 * s, x * pi + x2 * po + x3 * ps, e * bb, ev * bb, q);
    assert(x * pi + x2 * po + x3 * ps - ev * bb == x * da_l + x * da_r + x2 * da_o + x3 * ds_l + x3 * ds_r) by {
        let (ibb, obb, sbb) = (ib * bb, ob * bb, sb * bb);
        assert(x * (ibb + da_l + da_r) == x * ibb + x * da_l + x * da_r) by (nonlinear_arith);
        assert(x2 * (obb + da_o) == x2 * obb + x2 * da_o) by (nonlinear_arith);
        assert(x3 * (sbb + ds_l + ds_r) == x3 * sbb + x3 * ds_l + x3 * ds_r) by (nonlinear_arith);
        lemma_horner(x, ib, x * (ob + x * sb));
        lemma_horner_next(x, x, ob, x * sb);
        assert(x2 * (x * sb) == x3 * sb) by (nonlinear_arith)
            requires
                x3 == x2 * x,
        ;
        let (ei, eo, es) = (x * ib, x2 * ob, x3 * sb);
        assert((ei + eo + es) * bb == ei * bb + eo * bb + es * bb) by (nonlinear_arith);
        assert((x * ib) * bb == x * (ib * bb)) by (nonlinear_arith);
        assert((x2 * ob) * bb == x2 * (ob * bb)) by (nonlinear_arith);
        assert((x3 * sb) * bb == x3 * (sb * bb)) by (nonlinear_arith);
    }
}

/// A sum of two vectors, the second scaled, under some bases.
proof fn lemma_dot_pair(a: Seq<int>, u: Seq<int>, v: Seq<int>, e: int, g: Seq<int>, q: int)
    requires
        q > 1,
        a.len() == u.len() == v.len(),
        forall|i: int| 0 <= i < a.len() ==> #[trigger] a[i] == md(u[i] + e * v[i], q),
    ensures
        eqm(dot(a, g), dot(u, g) + e * dot(v, g), q),
{
    assert forall|i: int| 0 <= i < a.len() implies eqm(
        #[trigger] a[i],
        1 * u[i] + e * v[i] + 0 * v[i] + 0 * v[i],
        q,
    ) by {
        lemma_residue(u[i] + e * v[i], q);
    }
    lemma_dot_linear(a, 1, u, e, v, 0, v, 0, v, g, q);
}

/// The inner product of the aggregated vectors.
proof fn lemma_aggregated_product(
    a: Seq<int>,
    b: Seq<int>,
    l: Seq<int>,
    r: Seq<int>,
    lc: Seq<int>,
    rc: Seq<int>,
    e: int,
    t_x: int,
    t_cross: int,
    tc_x: int,
    q: int,
)
    requires
        q > 1,
        a.len() == b.len() == l.len() == r.len() == lc.len() == rc.len(),
        forall|i: int| 0 <= i < a.len() ==> #[trigger] a[i] == md(l[i] + e * lc[i], q),
        forall|i: int| 0 <= i < b.len() ==> #[trigger] b[i] == md(r[i] + e * rc[i], q),
        eqm(t_x, dot(l, r), q),
        eqm(t_cross, dot(l, rc) + dot(lc, r), q),
        eqm(tc_x, dot(lc, rc), q),
    ensures
        eqm(dot(a, b), t_x + e * t_cross + e * e * tc_x, q),
{
    lemma_dot_pair(a, l, lc, e, b, q);
    lemma_dot_pair(b, r, rc, e, l, q);
    lemma_dot_pair(b, r, rc, e, lc, q);
    lemma_dot_symmetric(l, b);
    lemma_dot_symmetric(lc, b);
    lemma_dot_symmetric(l, r);
    lemma_dot_symmetric(l, rc);
    lemma_dot_symmetric(lc, r);
    lemma_dot_symmetric(lc, rc);
    let (p0, p1, p2, p3) = (dot(l, r), dot(l, rc), dot(lc, r), dot(lc, rc));
    lemma_eqm_mul(e, e, dot(lc, b), p2 + e * p3, q);
    lemma_eqm_add(dot(l, b), p0 + e * p1, e * dot(lc, b), e * (p2 + e * p3), q);
    lemma_eqm_mul(e, e, t_cross, p1 + p2, q);
    lemma_eqm_mul(e * e, e * e, tc_x, p3, q);
    lemma_eqm_add(t_x, p0, e * t_cross, e * (p1 + p2), q);
    lemma_eqm_add(t_x + e * t_cross, p0 + e * (p1 + p2), e * e * tc_x, e * e * p3, q);
    assert(e * (p2 + e * p3) == e * p2 + e * e * p3) by (nonlinear_arith);
    assert(e * (p1 + p2) == e * p1 + e * p2) by (nonlinear_arith);
}

/// What the inner product argument starts from is what the proof commits to.
proof fn lemma_committed(
    w: Witness,
    b: Blindings,
    c: Challenges,
    gens: GensView,
    o: Opened,
    s: Responses,
    log: Log,
    k_fold: int,
    q: int,
)
    requires
        q > 1,
        w.a_L.len() == w.a_R.len() == w.a_O.len() == b.s_L.len() == b.s_R.len(),
        w.a_L.len() <= w.v.len() <= usize::MAX,
        b.s_L_prime.len() <= w.v.len(),
        gens.g.len() >= w.v.len(),
        invertible(c.y, q),
        o.a_i == md(b.i_blinding * gens.b_blinding + dot(w.a_L, gens.g) + dot(w.a_R, gens.h), q),
        o.a_o == md(b.o_blinding * gens.b_blinding + dot(w.a_O, gens.g), q),
        o.s == md(b.s_blinding * gens.b_blinding + dot(b.s_L, gens.g) + dot(b.s_R, gens.h), q),
        s.e_blinding == md(c.x * (b.i_blinding + c.x * (b.o_blinding + c.x * b.s_blinding)), q),
        o.v == md(w.v_blinding * gens.b_blinding + dot(w.v, gens.g), q),
        o.s_prime == md(b.s_prime_blinding * gens.b_blinding + dot(b.s_L_prime, gens.g), q),
        s.ec_blinding == md(w.v_blinding + b.s_prime_blinding * c.x_prime, q),
        ({
            let p = polys(w, b, c.y, c.z, q);
            let l = l_vec(w, p, c.x, q);
            let r = r_vec(w, p, c.y, c.x, q);
            let lc = lc_vec(w, b, c.x_prime, q);
            let rc = weights_input(w.constraints, w.v.len() as int, c.z, q);
            &&& s.t_x == md(eval6(t_poly(p, q), c.x), q)
            &&& s.t_cross == md(dot(l, rc) + dot(lc, r), q)
            &&& eqm(s.tc_x, dot(lc, rc), q)
        }),
    ensures
        ({
            let f = flattened(w.constraints, w.a_L.len() as int, w.v.len() as int, c.y, c.z, q);
            eqm(
                ipa_value(ipa_start(w, b, c, gens, log, k_fold, q), md(gens.b * c.w_agg, q)),
                committed(o, s, f, c, gens),
                q,
            )
        }),
{
    let k = w.v.len() as int;
    let f = flattened(w.constraints, w.a_L.len() as int, k, c.y, c.z, q);
    let p = polys(w, b, c.y, c.z, q);
    let (x, e) = (c.x, c.x_ipp);
    let l = l_vec(w, p, x, q);
    let r = r_vec(w, p, c.y, x, q);
    let lc = lc_vec(w, b, c.x_prime, q);
    let rc = f.wv;
    let st = ipa_start(w, b, c, gens, log, k_fold, q);
    let hp = h_prime(gens.h, k, c.y, q);
    let (x2, x3) = (x * x, x * x * x);
    // The bases G_i.
    lemma_dot_prefix(st.a, st.g, gens.g);
    lemma_dot_pair(st.a, l, lc, e, gens.g, q);
    lemma_l_dot(w, p, x, gens.g, q);
    lemma_l1_dot(w, b, f, c.y, c.z, gens.g, q);
    let (da_l, da_o, ds_l) = (dot(w.a_L, gens.g), dot(w.a_O, gens.g), dot(b.s_L, gens.g));
    let (da_r, ds_r) = (dot(w.a_R, gens.h), dot(b.s_R, gens.h));
    let sr = sum_right(f, gens.g);
    let dl1 = dot(p.l1, gens.g);
    lemma_eqm_mul(x, x, dl1, da_l + sr, q);
    assert(x * (da_l + sr) == x * da_l + x * sr) by (nonlinear_arith);
    lemma_eqm_add(x * dl1, x * da_l + x * sr, x2 * da_o, x2 * da_o, q);
    lemma_eqm_add(x * dl1 + x2 * da_o, x * da_l + x * sr + x2 * da_o, x3 * ds_l, x3 * ds_l, q);
    lemma_lc_commitment(
        w,
        b,
        c.x_prime,
        gens.g,
        gens.b_blinding,
        o.v,
        o.s_prime,
        s.ec_blinding,
        q,
    );
    let m = o.v + c.x_prime * o.s_prime - s.ec_blinding * gens.b_blinding;
    lemma_eqm_mul(e, e, dot(lc, gens.g), m, q);
    let g0 = x * da_l + x * sr + x2 * da_o + x3 * ds_l;
    lemma_eqm_add(dot(l, gens.g), g0, e * dot(lc, gens.g), e * m, q);
    assert(eqm(dot(st.a, st.g), g0 + e * m, q));
    // The bases H_i.
    lemma_dot_pair(st.b, r, rc, e, hp, q);
    lemma_r_dot(w, b, f, c.y, c.z, x, gens.h, q);
    lemma_h_prime(f, rc, gens.h, c.y, q);
    assert(sum_folded(f, gens.h, rc) == sum_input(f, gens.h)) by {
        lemma_sum_ext(
            f.k,
            |i: int| (f.yi[i] * rc[i]) * gens.h[i],
            |i: int| (f.yi[i] * f.wv[i]) * gens.h[i],
        );
    }
    let si = sum_input(f, gens.h);
    let slo = sum_left_output(f, gens.h, x);
    let h0 = slo + x * da_r + x3 * ds_r;
    lemma_eqm_mul(e, e, dot(rc, hp), si, q);
    lemma_eqm_add(dot(r, hp), h0, e * dot(rc, hp), e * si, q);
    assert(eqm(dot(st.b, st.h), h0 + e * si, q));
    // The inner product.
    lemma_product(w, p, c.y, x, q);
    lemma_residue(eval6(t_poly(p, q), x), q);
    lemma_residue(dot(l, rc) + dot(lc, r), q);
    lemma_aggregated_product(st.a, st.b, l, r, lc, rc, e, s.t_x, s.t_cross, s.tc_x, q);
    let cp = claimed_product(s, c);
    let qi = md(gens.b * c.w_agg, q);
    lemma_residue(gens.b * c.w_agg, q);
    lemma_eqm_mul(qi, gens.b * c.w_agg, dot(st.a, st.b), cp, q);
    let (gb, wa) = (gens.b, c.w_agg);
    assert((gb * wa) * cp == cp * wa * gb) by (nonlinear_arith);
    // Together.
    lemma_circuit_points(
        b,
        gens.b_blinding,
        x,
        o.a_i,
        o.a_o,
        o.s,
        s.e_blinding,
        da_l,
        da_r,
        da_o,
        ds_l,
        ds_r,
        q,
    );
    lemma_eqm_add(dot(st.a, st.g), g0 + e * m, dot(st.b, st.h), h0 + e * si, q);
    lemma_eqm_add(
        dot(st.a, st.g) + dot(st.b, st.h),
        g0 + e * m + (h0 + e * si),
        qi * dot(st.a, st.b),
        cp * wa * gb,
        q,
    );
    let pts = x * o.a_i + x * x * o.a_o + x * x * x * o.s - s.e_blinding * gens.b_blinding;
    let ptv = x * da_l + x * da_r + x * x * da_o + x * x * x * ds_l + x * x * x * ds_r;
    let rest = x * sr + slo + e * m + e * si + cp * wa * gb;
    lemma_eqm_add(pts, ptv, rest, rest, q);
}

/// The verification equation of the inner product argument.
proof fn lemma_eq_inner_product(
    c: Challenges,
    gens: GensView,
    o: Opened,
    s: Responses,
    f: Flattened,
    st: IpaState,
    si: IpaScalars,
    q: int,
)
    requires
        q > 1,
        si.g.len() == si.h.len() == f.k,
        gens.g.len() >= f.k,
        f.yi == powers_of(inv_mod(c.y, q), f.k, q),
        st.g == gens.g.take(f.k),
        st.h == h_prime(gens.h, f.k, c.y, q),
        eqm(ipa_value(st, md(gens.b * c.w_agg, q)), committed(o, s, f, c, gens), q),
        eqm(
            dot(si.g, st.g) + dot(si.h, st.h) + md(gens.b * c.w_agg, q) * si.q,
            si.p * ipa_value(st, md(gens.b * c.w_agg, q)) + dot(si.u, o.u),
            q,
        ),
    ensures
        eqm(eq_inner_product(o, s, f, c, gens, si), 0, q),
{
    lemma_dot_prefix(si.g, st.g, gens.g);
    lemma_h_prime(f, si.h, gens.h, c.y, q);
    let qi = md(gens.b * c.w_agg, q);
    lemma_residue(gens.b * c.w_agg, q);
    let (gb, wa, sq) = (gens.b, c.w_agg, si.q);
    lemma_eqm_mul(qi, gb * wa, sq, sq, q);
    assert((gb * wa) * sq == wa * sq * gb) by (nonlinear_arith);
    let dg = dot(si.g, gens.g);
    let sf = sum_folded(f, gens.h, si.h);
    lemma_eqm_add(dg, dg, dot(si.h, st.h), sf, q);
    lemma_eqm_add(dg + dot(si.h, st.h), dg + sf, qi * sq, wa * sq * gb, q);
    let cm = committed(o, s, f, c, gens);
    lemma_eqm_mul(si.p, si.p, ipa_value(st, qi), cm, q);
    let u = dot(si.u, o.u);
    lemma_eqm_add(si.p * ipa_value(st, qi), si.p * cm, u, u, q);
    let lhs = dg + sf + wa * sq * gb;
    assert(eqm(lhs, si.p * cm + u, q));
    lemma_eqm_sub(lhs, si.p * cm + u, si.p * cm + u, si.p * cm + u, q);
}

// ---------------------------------------------------------------------------
// The whole proof
// ---------------------------------------------------------------------------

/// The cross terms of an honest inner product argument.
proof fn lemma_ipp_terms<G: Group>(p: R1CSProof<G>, v: G::Encoding, s: IpaState, q_index: int, k: int, rounds: int)
    requires
        k >= 1,
        p.ipp_proof.proves(s, q_index, k, rounds),
    ensures
        p.ipp_decodable(),
        p.opened(v).u == ipa_all_terms::<G>(s, q_index, k, rounds),
{
    let wi = 2 * k - 2;
    let u = p.ipp_proof.U_vecs@;
    assert forall|r: int, x: int| 0 <= r < u.len() && 0 <= x < wi implies is_element::<G>(
        #[trigger] u[r]@[x],
    ) && element::<G>(u[r]@[x]) == ipa_terms::<G>(ipa_run::<G>(s, q_index, k, r), q_index, k)[x] by {
        let t = ipa_terms::<G>(ipa_run::<G>(s, q_index, k, r), q_index, k);
        assert(all_encode::<G>(u[r]@, t));
        assert(encodes::<G>(u[r]@[x], t[x]));
    }
    let o = p.opened(v).u;
    let t = ipa_all_terms::<G>(s, q_index, k, rounds);
    assert forall|i: int| 0 <= i < o.len() implies o[i] == t[i] by {
        lemma_row(i, rounds, wi);
        assert(is_element::<G>(u[i / wi]@[i % wi]));
    }
    assert(o =~= t);
}

/// A position in `rounds` rows of width `wi`.
proof fn lemma_row(i: int, rounds: int, wi: int)
    requires
        wi >= 0,
        0 <= i < rounds * wi,
    ensures
        wi > 0,
        0 <= i / wi < rounds,
        0 <= i % wi < wi,
{
    assert(wi > 0) by (nonlinear_arith)
        requires
            wi >= 0,
            0 <= i < rounds * wi,
    ;
    assert(0 <= i / wi < rounds) by (nonlinear_arith)
        requires
            wi > 0,
            0 <= i < rounds * wi,
    ;
}

/// The cross terms of an honest argument on the ciphertexts.
proof fn lemma_ecp_terms<G: Group>(p: R1CSProof<G>, v: G::Encoding, s: EcpState, k: int, rounds: int)
    requires
        k >= 1,
        p.ecp_batched.proves(s, k, rounds),
    ensures
        p.ecp_decodable(),
        p.opened(v).a0 == ecp_all_terms::<G>(s, k, rounds, 0),
        p.opened(v).a1 == ecp_all_terms::<G>(s, k, rounds, 1),
        forall|r: int| 0 <= r < rounds ==> (#[trigger] p.ecp_batched.A_vecs@[r])@.len() == p.ecp_width(),
{
    let we = 2 * k - 2;
    let a = p.ecp_batched.A_vecs@;
    assert forall|r: int| 0 <= r < rounds implies (#[trigger] a[r])@.len() == we by {
        let sr = ecp_run::<G>(s, k, r);
        assert(pairs_encode::<G>(a[r]@, ecp_terms_0::<G>(sr, k), ecp_terms_1::<G>(sr, k)));
    }
    assert forall|r: int, x: int| 0 <= r < a.len() && 0 <= x < we implies is_element::<G>(
        (#[trigger] a[r]@[x])@[0],
    ) && is_element::<G>(a[r]@[x]@[1]) && element::<G>(a[r]@[x]@[0]) == ecp_terms_0::<G>(
        ecp_run::<G>(s, k, r),
        k,
    )[x] && element::<G>(a[r]@[x]@[1]) == ecp_terms_1::<G>(ecp_run::<G>(s, k, r), k)[x] by {
        let sr = ecp_run::<G>(s, k, r);
        let (t0, t1) = (ecp_terms_0::<G>(sr, k), ecp_terms_1::<G>(sr, k));
        assert(pairs_encode::<G>(a[r]@, t0, t1));
        assert(encodes::<G>(a[r]@[x]@[0], t0[x]));
        assert(encodes::<G>(a[r]@[x]@[1], t1[x]));
    }
    let o = p.opened(v);
    let t0 = ecp_all_terms::<G>(s, k, rounds, 0);
    let t1 = ecp_all_terms::<G>(s, k, rounds, 1);
    assert forall|i: int| 0 <= i < o.a0.len() implies o.a0[i] == t0[i] && o.a1[i] == t1[i] by {
        lemma_row(i, rounds, we);
        assert(is_element::<G>(a[i / we]@[i % we]@[0]));
    }
    assert(o.a0 =~= t0);
    assert(o.a1 =~= t1);
}

/// The two ways to write down the blinded inputs agree.
proof fn lemma_tc(w: Witness, b: Blindings, x_prime: int, wv: Seq<int>, q: int)
    requires
        q > 1,
        b.s_L_prime.len() <= w.v.len(),
        wv.len() == w.v.len(),
    ensures
        ({
            let s = Seq::new(w.v.len(), |i: int| at(b.s_L_prime, i));
            eqm(
                md(dot(w.v, wv) + x_prime * dot(s, wv), q),
                dot(lc_vec(w, b, x_prime, q), wv),
                q,
            )
        }),
{
    let s = Seq::new(w.v.len(), |i: int| at(b.s_L_prime, i));
    let m = b.s_L_prime.len() as int;
    lemma_dot_take(s, wv, m);
    assert(s.take(m) =~= b.s_L_prime);
    lemma_lc_dot(w, b, x_prime, wv, q);
    lemma_residue(dot(w.v, wv) + x_prime * dot(s, wv), q);
}

/// Of five equations only the second may fail: the batch fails by as much,
/// times its weight.
proof fn lemma_batch_one(e0: int, e1: int, f1: int, e2: int, e3: int, e4: int, r: int, q: int)
    requires
        q > 1,
        eqm(e0, 0, q),
        eqm(e1, f1, q),
        eqm(e2, 0, q),
        eqm(e3, 0, q),
        eqm(e4, 0, q),
    ensures
        eqm(e0 + r * e1 + r * r * e2 + r * r * r * e3 + r * r * r * r * e4, r * f1, q),
{
    let (r2, r3, r4) = (r * r, r * r * r, r * r * r * r);
    lemma_eqm_mul(r, r, e1, f1, q);
    lemma_eqm_mul(r2, r2, e2, 0, q);
    lemma_eqm_mul(r3, r3, e3, 0, q);
    lemma_eqm_mul(r4, r4, e4, 0, q);
    assert(r2 * 0 == 0 && r3 * 0 == 0 && r4 * 0 == 0) by (nonlinear_arith);
    lemma_eqm_add(e0, 0, r * e1, r * f1, q);
    lemma_eqm_add(e0 + r * e1, r * f1, r2 * e2, 0, q);
    lemma_eqm_add(e0 + r * e1 + r2 * e2, r * f1, r3 * e3, 0, q);
    lemma_eqm_add(e0 + r * e1 + r2 * e2 + r3 * e3, r * f1, r4 * e4, 0, q);
}

/// The lengths of a witness, the random scalars, the ciphertexts and the
/// generators fit together.
pub open spec fn lengths_fit(w: Witness, b: Blindings, gens: GensView, ct: Ciphertexts) -> bool {
    &&& w.a_L.len() == w.a_R.len()
    &&& w.a_L.len() == w.a_O.len()
    &&& w.a_L.len() == b.s_L.len()
    &&& w.a_L.len() == b.s_R.len()
    &&& w.a_L.len() <= w.v.len()
    &&& 0 < w.v.len() <= usize::MAX
    &&& ct.c1.len() == ct.c2.len()
    &&& ct.c1.len() == b.s_L_prime.len()
    &&& ct.c1.len() <= w.v.len()
    &&& w.v.len() <= gens.g.len()
    &&& w.v.len() <= gens.h.len()
}

/// The pair that comes out is what the inputs make of the ciphertexts,
/// encrypted anew.
pub open spec fn applied(st: Statement, w: Witness, gens: GensView, ct: Ciphertexts, q: int) -> bool {
    let m = ct.c1.len() as int;
    &&& st.c1 == ct.c1
    &&& st.c2 == ct.c2
    &&& eqm(st.c_0, dot(w.v.take(m), ct.c1) + ct.r_prime * gens.b, q)
    &&& eqm(st.c_1, dot(w.v.take(m), ct.c2) + ct.r_prime * gens.f, q)
}

/// The challenges that have to be divided by have inverses.
pub open spec fn challenges_invertible<G: Group>(p: R1CSProof<G>, log: Log, k: int) -> bool {
    let q = G::Scalar::modulus();
    let ci = p.ipp_proof.challenges(p.log_ipp(log), k);
    let ce = p.ecp_batched.challenges(p.log_ecp(log, k), k);
    &&& invertible(p.challenges(log, k).y, q)
    &&& forall|r: int| 0 <= r < ci.len() ==> invertible(#[trigger] ci[r], q)
    &&& forall|r: int| 0 <= r < ce.len() ==> invertible(#[trigger] ce[r], q)
}

/// What a verifier's check comes to for the proof that an honest prover makes,
/// if the commitment is one to the inputs, the pair that comes out is what the
/// inputs make of the ciphertexts, and no challenge that has to be inverted is
/// zero: only the equation on the polynomial can fail, by what is violated.
pub proof fn law_honest_check<G: Group>(
    p: R1CSProof<G>,
    v: G::Encoding,
    w: Witness,
    b: Blindings,
    gens: GensView,
    ct: Ciphertexts,
    st: Statement,
    log: Log,
    k_fold: int,
    rounds: int,
    r: int,
)
    requires
        k_fold >= 1,
        2 * k_fold <= usize::MAX,
        rounds >= 0,
        lengths_fit(w, b, gens, ct),
        constraints_in_range(w.constraints, w.a_L.len() as int, w.v.len() as int),
        encodes::<G>(v, md(w.v_blinding * gens.b_blinding + dot(w.v, gens.g), G::Scalar::modulus())),
        applied(st, w, gens, ct, G::Scalar::modulus()),
        honest(p, w, b, gens, ct, log, k_fold, rounds),
        challenges_invertible(p, log, w.v.len() as int),
    ensures
        p.shaped(),
        ({
            let c = p.challenges(log, w.v.len() as int);
            let value = check_value(
                p,
                v,
                w.constraints,
                w.a_L.len() as int,
                w.v.len() as int,
                gens,
                st,
                log,
                r,
            );
            let violated = r * -(gens.b * (c.x * c.x * defect(w, c.y, c.z)));
            &&& eqm(value, violated, G::Scalar::modulus())
            &&& accepts(p, v, w.constraints, w.a_L.len() as int, w.v.len() as int, gens, st, log, r) <==> eqm(
                violated,
                0,
                G::Scalar::modulus(),
            )
        }),
{
    let q = G::Scalar::modulus();
    G::Scalar::modulus_range();
    let n = w.a_L.len() as int;
    let k = w.v.len() as int;
    let c = p.challenges(log, k);
    let o = p.opened(v);
    let s = p.responses();
    let f = flattened(w.constraints, n, k, c.y, c.z, q);
    let qi = md(gens.b * c.w_agg, q);
    let is = ipa_start(w, b, c, gens, p.log_ipp(log), k_fold, q);
    let es = ecp_start(w, b, c, gens, ct, p.log_ecp(log, k), k_fold, q);
    let si = p.ipp_proof.scalars(p.log_ipp(log), k);
    let se = p.ecp_batched.scalars(p.log_ecp(log, k), k);
    // The folding arguments.
    law_ipa_complete(p.ipp_proof, is, p.log_ipp(log), qi, k_fold, rounds);
    law_ecp_complete(p.ecp_batched, es, p.log_ecp(log, k), k_fold, rounds, 0);
    law_ecp_complete(p.ecp_batched, es, p.log_ecp(log, k), k_fold, rounds, 1);
    lemma_ipp_terms(p, v, is, qi, k_fold, rounds);
    lemma_ecp_terms(p, v, es, k_fold, rounds);
    // The equations.
    let pl = polys(w, b, c.y, c.z, q);
    let t = t_poly(pl, q);
    let d0 = dot(f.wv, w.v);
    lemma_dot_symmetric(f.wv, w.v);
    lemma_tc(w, b, c.x_prime, f.wv, q);
    lemma_committed(w, b, c, gens, o, s, p.log_ipp(log), k_fold, q);
    lemma_eq_inner_product(c, gens, o, s, f, is, si, q);
    lemma_t2(w, b, c.y, c.z, q);
    let t2 = dot(pl.l1, pl.r1) + dot(pl.l2, pl.r0);
    lemma_residue(t2, q);
    lemma_residue(d0, q);
    let wd = f.wc + delta(f);
    let excess = defect(w, c.y, c.z);
    lemma_eqm_add(wd + excess, wd + excess, md(d0, q), d0, q);
    lemma_eq_polynomial(b, c, gens, o, s, f, t, md(d0, q), excess, q);
    let sp = Seq::new(w.v.len(), |i: int| at(b.s_L_prime, i));
    lemma_eq_inputs(w, b, c, gens, o, s, d0, dot(sp, f.wv), q);
    lemma_eq_ciphertexts(w, b, c, gens, ct, o, s, st, se, q);
    lemma_eq_commitment(w, b, c, gens, o, s, se, q);
    lemma_batch_one(
        eq_inner_product(o, s, f, c, gens, si),
        eq_polynomial(o, s, f, c, gens),
        -(gens.b * (c.x * c.x * excess)),
        eq_inputs(o, s, c, gens),
        eq_ciphertexts(o, s, c, gens, st, se),
        eq_commitment(o, s, c, gens, se),
        r,
        q,
    );
    lemma_md_small(0, q);
}

/// Completeness: whatever weight a verifier draws, it accepts the proof that
/// an honest prover makes of a witness that satisfies all constraints, if the
/// commitment is one to the inputs, the pair that comes out is what the inputs
/// make of the ciphertexts, and no challenge that has to be inverted is zero.
pub proof fn law_r1cs_complete<G: Group>(
    p: R1CSProof<G>,
    v: G::Encoding,
    w: Witness,
    b: Blindings,
    gens: GensView,
    ct: Ciphertexts,
    st: Statement,
    log: Log,
    k_fold: int,
    rounds: int,
    r: int,
)
    requires
        k_fold >= 1,
        2 * k_fold <= usize::MAX,
        rounds >= 0,
        lengths_fit(w, b, gens, ct),
        constraints_in_range(w.constraints, w.a_L.len() as int, w.v.len() as int),
        satisfied(w, G::Scalar::modulus()),
        encodes::<G>(v, md(w.v_blinding * gens.b_blinding + dot(w.v, gens.g), G::Scalar::modulus())),
        applied(st, w, gens, ct, G::Scalar::modulus()),
        honest(p, w, b, gens, ct, log, k_fold, rounds),
        challenges_invertible(p, log, w.v.len() as int),
    ensures
        p.shaped(),
        accepts(p, v, w.constraints, w.a_L.len() as int, w.v.len() as int, gens, st, log, r),
{
    let q = G::Scalar::modulus();
    G::Scalar::modulus_range();
    let c = p.challenges(log, w.v.len() as int);
    law_honest_check(p, v, w, b, gens, ct, st, log, k_fold, rounds, r);
    lemma_no_defect(w, c.y, c.z, q);
    let (d, x2, g) = (defect(w, c.y, c.z), c.x * c.x, gens.b);
    lemma_eqm_mul(x2, x2, d, 0, q);
    lemma_eqm_mul(g, g, x2 * d, x2 * 0, q);
    lemma_eqm_mul(-r, -r, g * (x2 * d), g * (x2 * 0), q);
    assert(-r * (g * (x2 * 0)) == 0) by (nonlinear_arith);
    assert(r * -(g * (x2 * d)) == -r * (g * (x2 * d))) by (nonlinear_arith);
}

/// An honest run over a system that is not satisfied is rejected, if what is
/// violated, weighted with powers of the challenges `y` and `z`, does not add up
/// to zero, the base for values is not the identity, and neither the challenge
/// `x` nor the weight that the verifier draws is zero.
pub proof fn law_unsatisfied_rejected<G: Group>(
    p: R1CSProof<G>,
    v: G::Encoding,
    w: Witness,
    b: Blindings,
    gens: GensView,
    ct: Ciphertexts,
    st: Statement,
    log: Log,
    k_fold: int,
    rounds: int,
    r: int,
)
    requires
        k_fold >= 1,
        2 * k_fold <= usize::MAX,
        rounds >= 0,
        lengths_fit(w, b, gens, ct),
        constraints_in_range(w.constraints, w.a_L.len() as int, w.v.len() as int),
        encodes::<G>(v, md(w.v_blinding * gens.b_blinding + dot(w.v, gens.g), G::Scalar::modulus())),
        applied(st, w, gens, ct, G::Scalar::modulus()),
        honest(p, w, b, gens, ct, log, k_fold, rounds),
        challenges_invertible(p, log, w.v.len() as int),
        invertible(r, G::Scalar::modulus()),
        invertible(gens.b, G::Scalar::modulus()),
        invertible(p.challenges(log, w.v.len() as int).x, G::Scalar::modulus()),
        ({
            let c = p.challenges(log, w.v.len() as int);
            !eqm(defect(w, c.y, c.z), 0, G::Scalar::modulus())
        }),
    ensures
        !accepts(p, v, w.constraints, w.a_L.len() as int, w.v.len() as int, gens, st, log, r),
{
    let q = G::Scalar::modulus();
    G::Scalar::modulus_range();
    let c = p.challenges(log, w.v.len() as int);
    law_honest_check(p, v, w, b, gens, ct, st, log, k_fold, rounds, r);
    let (d, x, g) = (defect(w, c.y, c.z), c.x, gens.b);
    let violated = r * -(g * (x * x * d));
    if eqm(violated, 0, q) {
        assert(violated == r * (g * (x * (x * -d)))) by (nonlinear_arith)
            requires
                violated == r * -(g * (x * x * d)),
        ;
        lemma_cancel_factor(r, g * (x * (x * -d)), q);
        lemma_cancel_factor(g, x * (x * -d), q);
        lemma_cancel_factor(x, x * -d, q);
        lemma_cancel_factor(x, -d, q);
        lemma_eqm_add(-d, 0, d, d, q);
    }
}

/// A factor that has an inverse cancels.
pub proof fn lemma_cancel_factor(a: int, b: int, q: int)
    requires
        q > 1,
        invertible(a, q),
        eqm(a * b, 0, q),
    ensures
        eqm(b, 0, q),
{
    let w = choose|w: int| is_inverse(a, w, q);
    reveal(mul_mod);
    reveal(md);
    lemma_md_small(1, q);
    assert(eqm(a * w, 1, q));
    lemma_eqm_mul(w, w, a * b, 0, q);
    lemma_eqm_mul(a * w, 1, b, b, q);
    assert((a * w) * b == w * (a * b)) by (nonlinear_arith);
    assert(w * 0 == 0) by (nonlinear_arith);
}

} // verus!
