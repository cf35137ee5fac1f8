//! What an honest prover sends.

use vstd::arithmetic::power::pow;
use vstd::prelude::*;
use crate::ecp::{EcpState, at_least, ecp_log};
use crate::generators::GensView;
use crate::group::{Field, Group, encodes};
use crate::ipa::{IpaState, ipa_log};
use crate::modular::{inv_mod, md};
use crate::r1cs::constraint_system::weight;
use crate::r1cs::linear_combination::{Terms, Variable};
use crate::r1cs::r1cs_proof::{Challenges, R1CSProof};
use crate::r1cs::witness::Witness;
use crate::sums::{at, dot};
use crate::transcript::Log;
use crate::util::powers_of;

verus! {

/// The scalars that the prover draws at random.
pub struct Blindings {
    pub i_blinding: int,
    pub o_blinding: int,
    pub s_blinding: int,
    pub s_L: Seq<int>,
    pub s_R: Seq<int>,
    pub t_1_blinding: int,
    pub t_2_blinding: int,
    pub t_3_blinding: int,
    pub t_4_blinding: int,
    pub t_5_blinding: int,
    pub t_6_blinding: int,
    pub s_prime_blinding: int,
    pub rnd: int,
    pub s_L_prime: Seq<int>,
    pub t_1_prime_blinding: int,
}

/// The ciphertexts that the inputs are applied to, and the randomness with
/// which the result was encrypted anew.
pub struct Ciphertexts {
    pub c1: Seq<int>,
    pub c2: Seq<int>,
    pub r_prime: int,
}

/// The weights of the left inputs of the multipliers.
pub open spec fn weights_left(cs: Seq<Terms>, n: int, z: int, q: int) -> Seq<int> {
    Seq::new(n as nat, |i: int| md(weight(cs, z, Variable::MultiplierLeft(i as usize)), q))
}

/// The weights of the right inputs of the multipliers.
pub open spec fn weights_right(cs: Seq<Terms>, n: int, z: int, q: int) -> Seq<int> {
    Seq::new(n as nat, |i: int| md(weight(cs, z, Variable::MultiplierRight(i as usize)), q))
}

/// The weights of the outputs of the multipliers.
pub open spec fn weights_output(cs: Seq<Terms>, n: int, z: int, q: int) -> Seq<int> {
    Seq::new(n as nat, |i: int| md(weight(cs, z, Variable::MultiplierOutput(i as usize)), q))
}

/// The negated weights of the inputs.
pub open spec fn weights_input(cs: Seq<Terms>, m: int, z: int, q: int) -> Seq<int> {
    Seq::new(m as nat, |i: int| md(-weight(cs, z, Variable::Committed(i as usize)), q))
}

/// The negated weight of the constant.
pub open spec fn weight_constant(cs: Seq<Terms>, z: int, q: int) -> int {
    md(-weight(cs, z, Variable::One()), q)
}

/// The coefficients of the polynomials `l(X) = l1 X + l2 X^2 + l3 X^3` and
/// `r(X) = r0 + r1 X + r3 X^3`.
pub struct Polys {
    pub l1: Seq<int>,
    pub l2: Seq<int>,
    pub l3: Seq<int>,
    pub r0: Seq<int>,
    pub r1: Seq<int>,
    pub r3: Seq<int>,
}

/// The polynomials of the prover.
pub open spec fn polys(w: Witness, b: Blindings, y: int, z: int, q: int) -> Polys {
    let n = w.a_L.len();
    let wl = weights_left(w.constraints, n as int, z, q);
    let wr = weights_right(w.constraints, n as int, z, q);
    let wo = weights_output(w.constraints, n as int, z, q);
    let yp = powers_of(y, n as int, q);
    let yi = powers_of(inv_mod(y, q), n as int, q);
    Polys {
        l1: Seq::new(n, |i: int| md(w.a_L[i] + yi[i] * wr[i], q)),
        l2: w.a_O,
        l3: b.s_L,
        r0: Seq::new(n, |i: int| md(wo[i] - yp[i], q)),
        r1: Seq::new(n, |i: int| md(yp[i] * w.a_R[i] + wl[i], q)),
        r3: Seq::new(n, |i: int| md(yp[i] * b.s_R[i], q)),
    }
}

/// The coefficients of the inner product `t(X) = <l(X), r(X)>`.
pub struct TPoly {
    pub t1: int,
    pub t2: int,
    pub t3: int,
    pub t4: int,
    pub t5: int,
    pub t6: int,
}

pub open spec fn t_poly(p: Polys, q: int) -> TPoly {
    TPoly {
        t1: md(dot(p.l1, p.r0), q),
        t2: md(dot(p.l1, p.r1) + dot(p.l2, p.r0), q),
        t3: md(dot(p.l2, p.r1) + dot(p.l3, p.r0), q),
        t4: md(dot(p.l1, p.r3) + dot(p.l3, p.r1), q),
        t5: md(dot(p.l2, p.r3), q),
        t6: md(dot(p.l3, p.r3), q),
    }
}

/// The value of a polynomial of degree 6 without a constant coefficient.
pub open spec fn eval6(t: TPoly, x: int) -> int {
    x * (t.t1 + x * (t.t2 + x * (t.t3 + x * (t.t4 + x * (t.t5 + x * t.t6)))))
}

/// The blinding factors of the coefficients of `t(X)`.
pub open spec fn t_blindings(b: Blindings) -> TPoly {
    TPoly {
        t1: b.t_1_blinding,
        t2: b.t_2_blinding,
        t3: b.t_3_blinding,
        t4: b.t_4_blinding,
        t5: b.t_5_blinding,
        t6: b.t_6_blinding,
    }
}

/// `l(x)`, with zeros up to the number of inputs.
pub open spec fn l_vec(w: Witness, p: Polys, x: int, q: int) -> Seq<int> {
    Seq::new(
        w.v.len(),
        |i: int|
            if i < w.a_L.len() {
                md(0 + x * (p.l1[i] + x * (p.l2[i] + x * p.l3[i])), q)
            } else {
                0
            },
    )
}

/// `r(x)`, with the negated powers of `y` up to the number of inputs.
pub open spec fn r_vec(w: Witness, p: Polys, y: int, x: int, q: int) -> Seq<int> {
    Seq::new(
        w.v.len(),
        |i: int|
            if i < w.a_L.len() {
                md(p.r0[i] + x * (p.r1[i] + x * (0 + x * p.r3[i])), q)
            } else {
                md(-pow(y, i as nat), q)
            },
    )
}

/// The inputs, blinded.
pub open spec fn lc_vec(w: Witness, b: Blindings, x_prime: int, q: int) -> Seq<int> {
    Seq::new(w.v.len(), |i: int| md(w.v[i] + at(b.s_L_prime, i) * x_prime, q))
}

/// The bases `H_i` times the powers of the inverse of `y`.
pub open spec fn h_prime(h: Seq<int>, n: int, y: int, q: int) -> Seq<int> {
    Seq::new(n as nat, |i: int| md(h[i] * md(pow(inv_mod(y, q), i as nat), q), q))
}

/// What the prover holds at the start of the inner product argument.
pub open spec fn ipa_start(
    w: Witness,
    b: Blindings,
    c: Challenges,
    gens: GensView,
    log: Log,
    k_fold: int,
    q: int,
) -> IpaState {
    let k = w.v.len();
    let p = polys(w, b, c.y, c.z, q);
    let l = l_vec(w, p, c.x, q);
    let r = r_vec(w, p, c.y, c.x, q);
    let lc = lc_vec(w, b, c.x_prime, q);
    let rc = weights_input(w.constraints, k as int, c.z, q);
    IpaState {
        a: Seq::new(k, |i: int| md(l[i] + c.x_ipp * lc[i], q)),
        b: Seq::new(k, |i: int| md(r[i] + c.x_ipp * rc[i], q)),
        g: gens.g.take(k as int),
        h: h_prime(gens.h, k as int, c.y, q),
        log: ipa_log(log, k as int, k_fold),
    }
}

/// What the prover holds at the start of the argument on the ciphertexts.
pub open spec fn ecp_start(
    w: Witness,
    b: Blindings,
    c: Challenges,
    gens: GensView,
    ct: Ciphertexts,
    log: Log,
    k_fold: int,
    q: int,
) -> EcpState {
    let k = w.v.len();
    EcpState {
        a: lc_vec(w, b, c.x_prime, q),
        g: gens.g.take(k as int),
        c: at_least(batched(ct.c1, ct.c2, c.batch, q), k as int),
        log: ecp_log(log, k as int, k_fold),
    }
}

/// The two halves of the ciphertexts, batched with a challenge.
pub open spec fn batched(c1: Seq<int>, c2: Seq<int>, e: int, q: int) -> Seq<int> {
    Seq::new(c1.len(), |i: int| md(c1[i] + c2[i] * e, q))
}

/// The index of a Pedersen commitment.
pub open spec fn pedersen(gens: GensView, value: int, blinding: int, q: int) -> int {
    md(gens.b * value + gens.b_blinding * blinding, q)
}

/// The commitments to the circuit.
pub open spec fn honest_circuit<G: Group>(p: R1CSProof<G>, w: Witness, b: Blindings, gens: GensView) -> bool {
    let q = G::Scalar::modulus();
    &&& encodes::<G>(p.A_I, md(b.i_blinding * gens.b_blinding + dot(w.a_L, gens.g) + dot(w.a_R, gens.h), q))
    &&& encodes::<G>(p.A_O, md(b.o_blinding * gens.b_blinding + dot(w.a_O, gens.g), q))
    &&& encodes::<G>(p.S, md(b.s_blinding * gens.b_blinding + dot(b.s_L, gens.g) + dot(b.s_R, gens.h), q))
}

/// The commitments to the coefficients of `t(X)`, and their opening.
pub open spec fn honest_polynomial<G: Group>(
    p: R1CSProof<G>,
    w: Witness,
    b: Blindings,
    c: Challenges,
    gens: GensView,
) -> bool {
    let q = G::Scalar::modulus();
    let t = t_poly(polys(w, b, c.y, c.z, q), q);
    let wv = weights_input(w.constraints, w.v.len() as int, c.z, q);
    &&& encodes::<G>(p.T_1, pedersen(gens, t.t1, b.t_1_blinding, q))
    &&& encodes::<G>(p.T_2, pedersen(gens, md(dot(wv, w.v), q), b.t_2_blinding, q))
    &&& encodes::<G>(p.T_3, pedersen(gens, t.t3, b.t_3_blinding, q))
    &&& encodes::<G>(p.T_4, pedersen(gens, t.t4, b.t_4_blinding, q))
    &&& encodes::<G>(p.T_5, pedersen(gens, t.t5, b.t_5_blinding, q))
    &&& encodes::<G>(p.T_6, pedersen(gens, t.t6, b.t_6_blinding, q))
    &&& p.t_x.value() == md(eval6(t, c.x), q)
    &&& p.t_x_blinding.value() == md(eval6(t_blindings(b), c.x), q)
    &&& p.e_blinding.value() == md(
        c.x * (b.i_blinding + c.x * (b.o_blinding + c.x * b.s_blinding)),
        q,
    )
}

/// The commitments that tie the inputs to the ciphertexts, and their openings.
pub open spec fn honest_consistency<G: Group>(
    p: R1CSProof<G>,
    w: Witness,
    b: Blindings,
    c: Challenges,
    gens: GensView,
    ct: Ciphertexts,
) -> bool {
    let q = G::Scalar::modulus();
    let wv = weights_input(w.constraints, w.v.len() as int, c.z, q);
    let s = Seq::new(w.v.len(), |i: int| at(b.s_L_prime, i));
    &&& encodes::<G>(p.S_prime, md(b.s_prime_blinding * gens.b_blinding + dot(b.s_L_prime, gens.g), q))
    &&& encodes::<G>(p.S1_prime, md(b.rnd * gens.b + dot(b.s_L_prime, ct.c1), q))
    &&& encodes::<G>(p.S2_prime, md(b.rnd * gens.f + dot(b.s_L_prime, ct.c2), q))
    &&& encodes::<G>(p.T_1_prime, pedersen(gens, md(dot(s, wv), q), b.t_1_prime_blinding, q))
    &&& p.tc_x.value() == md(dot(w.v, wv) + c.x_prime * dot(s, wv), q)
    &&& p.tc_x_blinding.value() == md(b.t_2_blinding + c.x_prime * b.t_1_prime_blinding, q)
    &&& p.ec_blinding.value() == md(w.v_blinding + b.s_prime_blinding * c.x_prime, q)
    &&& p.r_blinding.value() == md(ct.r_prime + b.rnd * c.x_prime, q)
}

/// The two folding arguments.
pub open spec fn honest_arguments<G: Group>(
    p: R1CSProof<G>,
    w: Witness,
    b: Blindings,
    c: Challenges,
    gens: GensView,
    ct: Ciphertexts,
    log: Log,
    k_fold: int,
    rounds: int,
) -> bool {
    let q = G::Scalar::modulus();
    let k = w.v.len() as int;
    let polys = polys(w, b, c.y, c.z, q);
    let l = l_vec(w, polys, c.x, q);
    let r = r_vec(w, polys, c.y, c.x, q);
    let lc = lc_vec(w, b, c.x_prime, q);
    let rc = weights_input(w.constraints, k, c.z, q);
    &&& p.t_cross.value() == md(dot(l, rc) + dot(lc, r), q)
    &&& p.ipp_proof.proves(
        ipa_start(w, b, c, gens, p.log_ipp(log), k_fold, q),
        md(gens.b * c.w_agg, q),
        k_fold,
        rounds,
    )
    &&& p.ecp_batched.proves(
        ecp_start(w, b, c, gens, ct, p.log_ecp(log, k), k_fold, q),
        k_fold,
        rounds,
    )
}

/// `p` is the proof that an honest prover makes of the witness `w` with the
/// random scalars `b`, on a transcript with the log `log`.
pub open spec fn honest<G: Group>(
    p: R1CSProof<G>,
    w: Witness,
    b: Blindings,
    gens: GensView,
    ct: Ciphertexts,
    log: Log,
    k_fold: int,
    rounds: int,
) -> bool {
    let c = p.challenges(log, w.v.len() as int);
    &&& honest_circuit(p, w, b, gens)
    &&& honest_polynomial(p, w, b, c, gens)
    &&& honest_consistency(p, w, b, c, gens, ct)
    &&& honest_arguments(p, w, b, c, gens, ct, log, k_fold, rounds)
}

} // verus!
