//! How an honest prover blinds what it sends.

use vstd::prelude::*;
use crate::generators::GensView;
use crate::group::{Field, Group};
use crate::modular::{eqm, lemma_eqm_add, lemma_eqm_mul, lemma_md_range, md};
use crate::r1cs::constraint_system::ConstraintSystem;
use crate::r1cs::honest::{Blindings, Ciphertexts, honest, polys, t_poly, weights_input};
use crate::r1cs::linear_combination::Variable;
use crate::r1cs::prove::{ProverBlindings, ProverCS};
use crate::r1cs::r1cs_proof::R1CSProof;
use crate::r1cs::verification_laws::decoded;
use crate::r1cs::verify::VerifierCS;
use crate::r1cs::witness::{Witness, value_of};
use crate::sums::{at, dot};
use crate::transcript::Log;

verus! {

/// Every commitment of an honest prover is blinded with a random scalar of its
/// own: the three to the circuit and the one to the masks of the inputs under
/// the second base, the pair of masked ciphertexts under the first base and the
/// public key.
pub proof fn law_commitments_blinded<G: Group>(
    p: R1CSProof<G>,
    w: Witness,
    b: Blindings,
    gens: GensView,
    ct: Ciphertexts,
    log: Log,
    k_fold: int,
    rounds: int,
)
    requires
        honest(p, w, b, gens, ct, log, k_fold, rounds),
    ensures
        ({
            let q = G::Scalar::modulus();
            &&& eqm(
                decoded::<G>(p.A_I),
                b.i_blinding * gens.b_blinding + dot(w.a_L, gens.g) + dot(w.a_R, gens.h),
                q,
            )
            &&& eqm(decoded::<G>(p.A_O), b.o_blinding * gens.b_blinding + dot(w.a_O, gens.g), q)
            &&& eqm(
                decoded::<G>(p.S),
                b.s_blinding * gens.b_blinding + dot(b.s_L, gens.g) + dot(b.s_R, gens.h),
                q,
            )
            &&& eqm(decoded::<G>(p.S_prime), b.s_prime_blinding * gens.b_blinding + dot(b.s_L_prime, gens.g), q)
            &&& eqm(decoded::<G>(p.S1_prime), b.rnd * gens.b + dot(b.s_L_prime, ct.c1), q)
            &&& eqm(decoded::<G>(p.S2_prime), b.rnd * gens.f + dot(b.s_L_prime, ct.c2), q)
        }),
{
    let q = G::Scalar::modulus();
    G::Scalar::modulus_range();
    lemma_md_range(b.i_blinding * gens.b_blinding + dot(w.a_L, gens.g) + dot(w.a_R, gens.h), q);
    lemma_md_range(b.o_blinding * gens.b_blinding + dot(w.a_O, gens.g), q);
    lemma_md_range(b.s_blinding * gens.b_blinding + dot(b.s_L, gens.g) + dot(b.s_R, gens.h), q);
    lemma_md_range(b.s_prime_blinding * gens.b_blinding + dot(b.s_L_prime, gens.g), q);
    lemma_md_range(b.rnd * gens.b + dot(b.s_L_prime, ct.c1), q);
    lemma_md_range(b.rnd * gens.f + dot(b.s_L_prime, ct.c2), q);
}

/// The coefficients of the polynomial, the inner product of the inputs and
/// their weights, and that of the masks and the weights are in Pedersen
/// commitments, each with a blinding factor of its own.
pub proof fn law_coefficients_blinded<G: Group>(
    p: R1CSProof<G>,
    w: Witness,
    b: Blindings,
    gens: GensView,
    ct: Ciphertexts,
    log: Log,
    k_fold: int,
    rounds: int,
)
    requires
        honest(p, w, b, gens, ct, log, k_fold, rounds),
    ensures
        ({
            let q = G::Scalar::modulus();
            let k = w.v.len() as int;
            let c = p.challenges(log, k);
            let t = t_poly(polys(w, b, c.y, c.z, q), q);
            let wv = weights_input(w.constraints, k, c.z, q);
            let masks = Seq::new(w.v.len(), |i: int| at(b.s_L_prime, i));
            &&& eqm(decoded::<G>(p.T_1), t.t1 * gens.b + b.t_1_blinding * gens.b_blinding, q)
            &&& eqm(decoded::<G>(p.T_2), dot(wv, w.v) * gens.b + b.t_2_blinding * gens.b_blinding, q)
            &&& eqm(decoded::<G>(p.T_3), t.t3 * gens.b + b.t_3_blinding * gens.b_blinding, q)
            &&& eqm(decoded::<G>(p.T_4), t.t4 * gens.b + b.t_4_blinding * gens.b_blinding, q)
            &&& eqm(decoded::<G>(p.T_5), t.t5 * gens.b + b.t_5_blinding * gens.b_blinding, q)
            &&& eqm(decoded::<G>(p.T_6), t.t6 * gens.b + b.t_6_blinding * gens.b_blinding, q)
            &&& eqm(decoded::<G>(p.T_1_prime), dot(masks, wv) * gens.b + b.t_1_prime_blinding * gens.b_blinding, q)
        }),
{
    let q = G::Scalar::modulus();
    G::Scalar::modulus_range();
    let k = w.v.len() as int;
    let c = p.challenges(log, k);
    let t = t_poly(polys(w, b, c.y, c.z, q), q);
    let wv = weights_input(w.constraints, k, c.z, q);
    let masks = Seq::new(w.v.len(), |i: int| at(b.s_L_prime, i));
    lemma_opened(gens, t.t1, t.t1, b.t_1_blinding, q);
    lemma_opened(gens, md(dot(wv, w.v), q), dot(wv, w.v), b.t_2_blinding, q);
    lemma_opened(gens, t.t3, t.t3, b.t_3_blinding, q);
    lemma_opened(gens, t.t4, t.t4, b.t_4_blinding, q);
    lemma_opened(gens, t.t5, t.t5, b.t_5_blinding, q);
    lemma_opened(gens, t.t6, t.t6, b.t_6_blinding, q);
    lemma_opened(gens, md(dot(masks, wv), q), dot(masks, wv), b.t_1_prime_blinding, q);
}

/// A Pedersen commitment to a residue.
proof fn lemma_opened(gens: GensView, residue: int, value: int, blinding: int, q: int)
    requires
        q > 1,
        residue == value || residue == md(value, q),
    ensures
        eqm(md(gens.b * residue + gens.b_blinding * blinding, q), value * gens.b + blinding * gens.b_blinding, q),
{
    lemma_md_range(value, q);
    lemma_md_range(gens.b * residue + gens.b_blinding * blinding, q);
    let (x, y) = (gens.b, gens.b_blinding);
    lemma_eqm_mul(x, x, residue, value, q);
    lemma_eqm_add(x * residue, x * value, y * blinding, y * blinding, q);
    assert(x * value + y * blinding == value * x + blinding * y) by (nonlinear_arith);
}

/// The responses of an honest prover are the combinations of the blinding
/// factors that open the combined commitments.
pub proof fn law_responses<G: Group>(
    p: R1CSProof<G>,
    w: Witness,
    b: Blindings,
    gens: GensView,
    ct: Ciphertexts,
    log: Log,
    k_fold: int,
    rounds: int,
)
    requires
        honest(p, w, b, gens, ct, log, k_fold, rounds),
    ensures
        ({
            let q = G::Scalar::modulus();
            let c = p.challenges(log, w.v.len() as int);
            let x = c.x;
            &&& eqm(
                p.e_blinding.value(),
                x * b.i_blinding + x * x * b.o_blinding + x * x * x * b.s_blinding,
                q,
            )
            &&& eqm(p.tc_x_blinding.value(), b.t_2_blinding + c.x_prime * b.t_1_prime_blinding, q)
            &&& eqm(p.ec_blinding.value(), w.v_blinding + c.x_prime * b.s_prime_blinding, q)
            &&& eqm(p.r_blinding.value(), ct.r_prime + c.x_prime * b.rnd, q)
        }),
{
    let q = G::Scalar::modulus();
    G::Scalar::modulus_range();
    let c = p.challenges(log, w.v.len() as int);
    let (x, i, o, s) = (c.x, b.i_blinding, b.o_blinding, b.s_blinding);
    assert(x * (i + x * (o + x * s)) == x * i + x * x * o + x * x * x * s) by (nonlinear_arith);
    lemma_md_range(x * (i + x * (o + x * s)), q);
    lemma_md_range(b.t_2_blinding + c.x_prime * b.t_1_prime_blinding, q);
    let (xp, sp, rn) = (c.x_prime, b.s_prime_blinding, b.rnd);
    assert(sp * xp == xp * sp) by (nonlinear_arith);
    assert(rn * xp == xp * rn) by (nonlinear_arith);
    lemma_md_range(w.v_blinding + sp * xp, q);
    lemma_md_range(ct.r_prime + rn * xp, q);
}

/// A prover knows the values of its multipliers and inputs, each under the
/// variable of its own, and states its own constraints.
pub proof fn law_prover_knows<'a, 'b, G: Group>(cs: ProverCS<'a, 'b, G>, i: int)
    ensures
        0 <= i < cs.secrets.a_L@.len() && i <= usize::MAX ==> value_of(
            cs.witness(),
            Variable::MultiplierLeft(i as usize),
        ) == cs.secrets.a_L@[i].value(),
        0 <= i < cs.secrets.a_R@.len() && i <= usize::MAX ==> value_of(
            cs.witness(),
            Variable::MultiplierRight(i as usize),
        ) == cs.secrets.a_R@[i].value(),
        0 <= i < cs.secrets.a_O@.len() && i <= usize::MAX ==> value_of(
            cs.witness(),
            Variable::MultiplierOutput(i as usize),
        ) == cs.secrets.a_O@[i].value(),
        0 <= i < cs.secrets.v@.len() && i <= usize::MAX ==> value_of(
            cs.witness(),
            Variable::Committed(i as usize),
        ) == cs.secrets.v@[i].value(),
        value_of(cs.witness(), Variable::One()) == 1,
        cs.witness().v_blinding == cs.secrets.v_blinding.value(),
        cs.witness().constraints.len() == cs.constraints@.len(),
        0 <= i < cs.constraints@.len() ==> cs.witness().constraints[i] == cs.constraints@[i]@,
        cs.witness().a_L.len() == cs.secrets.a_L@.len(),
        cs.witness().a_R.len() == cs.secrets.a_R@.len(),
        cs.witness().a_O.len() == cs.secrets.a_O@.len(),
        cs.witness().v.len() == cs.secrets.v@.len(),
{
}

/// Each random scalar of a prover stands under its own name.
pub proof fn law_blindings_named<F: Field>(b: ProverBlindings<F>)
    ensures
        b@.i_blinding == b.i_blinding.value(),
        b@.o_blinding == b.o_blinding.value(),
        b@.s_blinding == b.s_blinding.value(),
        b@.t_1_blinding == b.t_1_blinding.value(),
        b@.t_2_blinding == b.t_2_blinding.value(),
        b@.t_3_blinding == b.t_3_blinding.value(),
        b@.t_4_blinding == b.t_4_blinding.value(),
        b@.t_5_blinding == b.t_5_blinding.value(),
        b@.t_6_blinding == b.t_6_blinding.value(),
        b@.s_prime_blinding == b.s_prime_blinding.value(),
        b@.rnd == b.rnd.value(),
        b@.t_1_prime_blinding == b.t_1_prime_blinding.value(),
        b@.s_L.len() == b.s_L@.len(),
        b@.s_R.len() == b.s_R@.len(),
        b@.s_L_prime.len() == b.s_L_prime@.len(),
        forall|i: int| 0 <= i < b.s_L@.len() ==> #[trigger] b@.s_L[i] == b.s_L@[i].value(),
        forall|i: int| 0 <= i < b.s_R@.len() ==> #[trigger] b@.s_R[i] == b.s_R@[i].value(),
        forall|i: int| 0 <= i < b.s_L_prime@.len() ==> #[trigger] b@.s_L_prime[i] == b.s_L_prime@[i].value(),
{
}

/// The operations on a constraint system, which keep its setting, leave the
/// generators and the inputs of both roles as they are.
pub proof fn law_setting_kept<'a, 'b, 'c, 'd, G: Group>(
    p: ProverCS<'a, 'b, G>,
    p2: ProverCS<'a, 'b, G>,
    v: VerifierCS<'c, 'd, G>,
    v2: VerifierCS<'c, 'd, G>,
)
    requires
        p.setting() == p2.setting(),
        v.setting() == v2.setting(),
    ensures
        p.bp_gens == p2.bp_gens,
        p.pc_gens == p2.pc_gens,
        p.secrets.v == p2.secrets.v,
        p.secrets.v_blinding == p2.secrets.v_blinding,
        v.bp_gens == v2.bp_gens,
        v.pc_gens == v2.pc_gens,
        v.V == v2.V,
        v.num_inputs == v2.num_inputs,
{
}

/// Both roles count the multipliers and inputs, and list the constraints, that
/// they hold.
pub proof fn law_roles_hold<'a, 'b, 'c, 'd, G: Group>(
    p: ProverCS<'a, 'b, G>,
    v: VerifierCS<'c, 'd, G>,
    i: int,
)
    ensures
        p.multipliers() == p.secrets.a_L@.len(),
        p.inputs() == p.secrets.v@.len(),
        p.assigned() == Some(p.witness()),
        p.constraints().len() == p.constraints@.len(),
        0 <= i < p.constraints@.len() ==> p.constraints()[i] == p.constraints@[i]@,
        v.multipliers() == v.num_vars,
        v.inputs() == v.num_inputs,
        v.assigned() is None,
        v.constraints().len() == v.constraints@.len(),
        0 <= i < v.constraints@.len() ==> v.constraints()[i] == v.constraints@[i]@,
{
}

} // verus!
