//! What the operations on a constraint system keep, and what a prover and a
//! verifier who go through the same operations agree on.

use vstd::prelude::*;
use crate::generators::gens_view;
use crate::group::{Field, Group, encodes, indices};
use crate::modular::{eqm, group_mod, lemma_eqm_add, lemma_eqm_mul, lemma_md_range, md, sub_mod};
use crate::r1cs::completeness::{applied, challenges_invertible, law_r1cs_complete, lengths_fit};
use crate::r1cs::constraint_system::{ConstraintSystem, constraints_in_range, in_range, terms_in_range};
use crate::r1cs::equations::Statement;
use crate::r1cs::honest::{Blindings, Ciphertexts, honest};
use crate::r1cs::linear_combination::{Terms, Variable, eval_terms, law_eval_push};
use crate::r1cs::prove::ProverCS;
use crate::r1cs::r1cs_proof::R1CSProof;
use crate::r1cs::verify::VerifierCS;
use crate::r1cs::witness::{Witness, allocated, assignment, constrained, multiplied, satisfied, value_of};
use crate::sums::{dot, lemma_sum_ext, lemma_sum_truncate};
use crate::transcript::Log;

verus! {

broadcast use group_mod;

/// Terms that are in range have the same value under a witness with more
/// multipliers.
proof fn lemma_eval_extended(t: Terms, w: Witness, u: Witness)
    requires
        terms_in_range(t, w.a_L.len() as int, w.v.len() as int),
        w.a_L.len() == w.a_R.len() == w.a_O.len(),
        w.v == u.v,
        forall|i: int| 0 <= i < w.a_L.len() ==> #[trigger] u.a_L[i] == w.a_L[i],
        forall|i: int| 0 <= i < w.a_L.len() ==> #[trigger] u.a_R[i] == w.a_R[i],
        forall|i: int| 0 <= i < w.a_L.len() ==> #[trigger] u.a_O[i] == w.a_O[i],
    ensures
        eval_terms(t, assignment(u)) == eval_terms(t, assignment(w)),
{
    let f = |i: int| t[i].1 * assignment(u)(t[i].0);
    let g = |i: int| t[i].1 * assignment(w)(t[i].0);
    assert forall|i: int| 0 <= i < t.len() implies #[trigger] f(i) == g(i) by {
        assert(in_range(t[i].0, w.a_L.len() as int, w.v.len() as int));
        assert(value_of(u, t[i].0) == value_of(w, t[i].0));
    }
    lemma_sum_ext(t.len() as int, f, g);
}

/// `a` and minus one times the residue of `a` add up to zero.
proof fn lemma_cancels(a: int, q: int)
    requires
        q > 1,
    ensures
        eqm(a + sub_mod(0, 1, q) * md(a, q), 0, q),
{
    reveal(sub_mod);
    reveal(md);
    lemma_md_range(a, q);
    lemma_md_range(0 - 1, q);
    lemma_eqm_mul(md(0 - 1, q), -1, md(a, q), a, q);
    lemma_eqm_add(a, a, md(0 - 1, q) * md(a, q), -1 * a, q);
    assert(-1 * a == -a) by (nonlinear_arith);
}

/// A constraint that holds can be added, and only one that holds.
pub proof fn law_constrain(w: Witness, t: Terms, q: int)
    ensures
        satisfied(constrained(w, t), q) <==> satisfied(w, q) && eqm(eval_terms(t, assignment(w)), 0, q),
{
    let u = constrained(w, t);
    assert(assignment(u) =~= assignment(w)) by {
        assert forall|var: Variable| #[trigger] value_of(u, var) == value_of(w, var) by {}
    }
    let last = w.constraints.len() as int;
    assert(u.constraints[last] == t);
    assert(u.a_L == w.a_L && u.a_R == w.a_R && u.a_O == w.a_O);
    if satisfied(u, q) {
        assert(eqm(eval_terms(u.constraints[last], assignment(u)), 0, q));
        assert forall|c: int| 0 <= c < w.constraints.len() implies eqm(
            eval_terms(#[trigger] w.constraints[c], assignment(w)),
            0,
            q,
        ) by {
            assert(u.constraints[c] == w.constraints[c]);
        }
    }
    if satisfied(w, q) && eqm(eval_terms(t, assignment(w)), 0, q) {
        assert forall|c: int| 0 <= c < u.constraints.len() implies eqm(
            eval_terms(#[trigger] u.constraints[c], assignment(u)),
            0,
            q,
        ) by {
            if c < w.constraints.len() {
                assert(u.constraints[c] == w.constraints[c]);
            }
        }
    }
}

/// A multiplier that multiplies can be allocated, and only one that does.
pub proof fn law_allocate(w: Witness, l: int, r: int, o: int, q: int)
    requires
        w.a_L.len() == w.a_R.len() == w.a_O.len(),
        constraints_in_range(w.constraints, w.a_L.len() as int, w.v.len() as int),
    ensures
        satisfied(allocated(w, l, r, o), q) <==> satisfied(w, q) && eqm(o, l * r, q),
        constraints_in_range(w.constraints, w.a_L.len() as int + 1, w.v.len() as int),
{
    let u = allocated(w, l, r, o);
    let n = w.a_L.len() as int;
    assert forall|c: int| 0 <= c < w.constraints.len() implies eval_terms(
        #[trigger] w.constraints[c],
        assignment(u),
    ) == eval_terms(w.constraints[c], assignment(w)) by {
        lemma_eval_extended(w.constraints[c], w, u);
    }
    assert forall|c: int| 0 <= c < w.constraints.len() implies terms_in_range(
        #[trigger] w.constraints[c],
        n + 1,
        w.v.len() as int,
    ) by {
        let t = w.constraints[c];
        assert forall|i: int| 0 <= i < t.len() implies in_range((#[trigger] t[i]).0, n + 1, w.v.len() as int) by {
            assert(in_range(t[i].0, n, w.v.len() as int));
        }
    }
    assert(u.a_O[n] == o && u.a_L[n] == l && u.a_R[n] == r);
    if satisfied(u, q) {
        assert forall|i: int| 0 <= i < n implies eqm(#[trigger] w.a_O[i], w.a_L[i] * w.a_R[i], q) by {
            assert(eqm(u.a_O[i], u.a_L[i] * u.a_R[i], q));
        }
        assert forall|c: int| 0 <= c < w.constraints.len() implies eqm(
            eval_terms(#[trigger] w.constraints[c], assignment(w)),
            0,
            q,
        ) by {
            assert(u.constraints[c] == w.constraints[c]);
        }
    }
    if satisfied(w, q) && eqm(o, l * r, q) {
        assert forall|i: int| 0 <= i < n + 1 implies eqm(#[trigger] u.a_O[i], u.a_L[i] * u.a_R[i], q) by {
            if i < n {
                assert(eqm(w.a_O[i], w.a_L[i] * w.a_R[i], q));
            }
        }
    }
}

/// `multiply` keeps all constraints satisfied: the two that it adds hold, and
/// the multiplier that it adds multiplies.
pub proof fn law_multiply(w: Witness, left: Terms, right: Terms, q: int)
    requires
        q > 1,
        w.a_L.len() == w.a_R.len() == w.a_O.len(),
        w.a_L.len() < usize::MAX,
        constraints_in_range(w.constraints, w.a_L.len() as int, w.v.len() as int),
        terms_in_range(left, w.a_L.len() as int, w.v.len() as int),
        terms_in_range(right, w.a_L.len() as int, w.v.len() as int),
    ensures
        satisfied(multiplied(w, left, right, q), q) <==> satisfied(w, q),
        constraints_in_range(multiplied(w, left, right, q).constraints, w.a_L.len() as int + 1, w.v.len() as int),
{
    let n = w.a_L.len() as int;
    let m = w.v.len() as int;
    let l = md(eval_terms(left, assignment(w)), q);
    let r = md(eval_terms(right, assignment(w)), q);
    let minus_one = sub_mod(0, 1, q);
    let lt = left.push((Variable::MultiplierLeft(n as usize), minus_one));
    let rt = right.push((Variable::MultiplierRight(n as usize), minus_one));
    let a = allocated(w, l, r, md(l * r, q));
    law_allocate(w, l, r, md(l * r, q), q);
    lemma_md_range(l * r, q);
    law_constrain(a, lt, q);
    law_constrain(constrained(a, lt), rt, q);
    assert(multiplied(w, left, right, q) == constrained(constrained(a, lt), rt));
    assert(assignment(constrained(a, lt)) =~= assignment(a)) by {
        assert forall|var: Variable| #[trigger] value_of(constrained(a, lt), var) == value_of(a, var) by {}
    }
    lemma_eval_extended(left, w, a);
    lemma_eval_extended(right, w, a);
    law_eval_push(left, Variable::MultiplierLeft(n as usize), minus_one, assignment(a));
    law_eval_push(right, Variable::MultiplierRight(n as usize), minus_one, assignment(a));
    lemma_cancels(eval_terms(left, assignment(w)), q);
    lemma_cancels(eval_terms(right, assignment(w)), q);
    assert(terms_in_range(lt, n + 1, m)) by {
        assert forall|i: int| 0 <= i < lt.len() implies in_range((#[trigger] lt[i]).0, n + 1, m) by {
            if i < left.len() {
                assert(in_range(left[i].0, n, m));
            }
        }
    }
    assert(terms_in_range(rt, n + 1, m)) by {
        assert forall|i: int| 0 <= i < rt.len() implies in_range((#[trigger] rt[i]).0, n + 1, m) by {
            if i < right.len() {
                assert(in_range(right[i].0, n, m));
            }
        }
    }
}

/// A commitment to a prefix of the inputs is one to all of them if the others
/// are zero.
pub proof fn law_prefix_commitment(v: Seq<int>, g: Seq<int>, k: int)
    requires
        0 <= k <= v.len(),
        forall|i: int| k <= i < v.len() ==> #[trigger] v[i] == 0,
    ensures
        dot(v.take(k), g) == dot(v, g),
{
    let f = |i: int| v[i] * g[i];
    lemma_sum_truncate(v.len() as int, k, f);
    lemma_sum_ext(k, f, |i: int| v.take(k)[i] * g[i]);
}

/// A verifier who has added the same constraints over the same variables, has
/// the commitment to the prover's inputs and starts from the same transcript
/// accepts what the prover proves, whatever weight it draws.
pub proof fn law_roles_agree<'a, 'b, 'c, 'd, G: Group>(
    prover: ProverCS<'a, 'b, G>,
    verifier: VerifierCS<'c, 'd, G>,
    p: R1CSProof<G>,
    b: Blindings,
    C1_prime: Seq<G::Point>,
    C2_prime: Seq<G::Point>,
    C: Seq<G::Point>,
    r_prime: int,
    log: Log,
    k_fold: int,
    rounds: int,
    r: int,
)
    requires
        prover.can_prove(C1_prime.len() as int, C2_prime.len() as int, k_fold, rounds),
        0 < prover.secrets.v@.len() <= prover.bp_gens.gens_capacity,
        C1_prime.len() <= prover.secrets.v@.len(),
        rounds >= 0,
        b.s_L.len() == prover.secrets.a_L@.len(),
        b.s_R.len() == prover.secrets.a_L@.len(),
        b.s_L_prime.len() == C1_prime.len(),
        satisfied(prover.witness(), G::Scalar::modulus()),
        verifier.bp_gens == prover.bp_gens,
        verifier.pc_gens == prover.pc_gens,
        verifier.constraints() == prover.constraints(),
        verifier.multipliers() == prover.multipliers(),
        verifier.num_inputs == prover.secrets.v@.len(),
        verifier.V@.len() > 0,
        ({
            let q = G::Scalar::modulus();
            let gens = gens_view(*prover.bp_gens, *prover.pc_gens);
            let w = prover.witness();
            let ct = Ciphertexts { c1: indices::<G>(C1_prime), c2: indices::<G>(C2_prime), r_prime };
            let st = Statement { c1: ct.c1, c2: ct.c2, c_0: G::index(C[0]), c_1: G::index(C[1]) };
            &&& encodes::<G>(verifier.V@[0], md(w.v_blinding * gens.b_blinding + dot(w.v, gens.g), q))
            &&& applied(st, w, gens, ct, q)
            &&& honest(p, w, b, gens, ct, log, k_fold, rounds)
            &&& challenges_invertible(p, log, w.v.len() as int)
        }),
    ensures
        p.shaped(),
        verifier.accepts(p, C1_prime, C2_prime, C, log, r),
{
    let w = prover.witness();
    let gens = gens_view(*prover.bp_gens, *prover.pc_gens);
    let ct = Ciphertexts { c1: indices::<G>(C1_prime), c2: indices::<G>(C2_prime), r_prime };
    let st = Statement { c1: ct.c1, c2: ct.c2, c_0: G::index(C[0]), c_1: G::index(C[1]) };
    assert(lengths_fit(w, b, gens, ct));
    law_r1cs_complete(p, verifier.V@[0], w, b, gens, ct, st, log, k_fold, rounds, r);
}

/// A constraint that ends in minus a variable gives that variable the value of
/// what is before it.
proof fn lemma_bound_variable(t: Terms, var: Variable, u: Witness, q: int)
    requires
        q > 1,
        eqm(eval_terms(t.push((var, sub_mod(0, 1, q))), assignment(u)), 0, q),
    ensures
        eqm(value_of(u, var), eval_terms(t, assignment(u)), q),
{
    let (e, x, minus_one) = (eval_terms(t, assignment(u)), value_of(u, var), sub_mod(0, 1, q));
    law_eval_push(t, var, minus_one, assignment(u));
    reveal(sub_mod);
    reveal(md);
    lemma_md_range(0 - 1, q);
    lemma_eqm_mul(minus_one, -1, x, x, q);
    lemma_eqm_add(e, e, minus_one * x, -1 * x, q);
    lemma_eqm_add(e + -1 * x, 0, x, x, q);
    assert(e + -1 * x + x == e);
}

/// Whoever satisfies the constraints after `multiply` has in the new
/// multiplier the values of its two factors and their product.
pub proof fn law_multiply_binds(w: Witness, u: Witness, left: Terms, right: Terms, q: int)
    requires
        q > 1,
        w.a_L.len() <= usize::MAX,
        u.a_L.len() > w.a_L.len(),
        u.constraints == multiplied(w, left, right, q).constraints,
        satisfied(u, q),
    ensures
        ({
            let n = w.a_L.len() as usize;
            let (x, y) = (eval_terms(left, assignment(u)), eval_terms(right, assignment(u)));
            &&& eqm(value_of(u, Variable::MultiplierLeft(n)), x, q)
            &&& eqm(value_of(u, Variable::MultiplierRight(n)), y, q)
            &&& eqm(value_of(u, Variable::MultiplierOutput(n)), x * y, q)
        }),
{
    let n = w.a_L.len() as usize;
    let c = w.constraints.len() as int;
    let (x, y) = (eval_terms(left, assignment(u)), eval_terms(right, assignment(u)));
    assert(u.constraints[c] == left.push((Variable::MultiplierLeft(n), sub_mod(0, 1, q))));
    assert(u.constraints[c + 1] == right.push((Variable::MultiplierRight(n), sub_mod(0, 1, q))));
    lemma_bound_variable(left, Variable::MultiplierLeft(n), u, q);
    lemma_bound_variable(right, Variable::MultiplierRight(n), u, q);
    assert(eqm(u.a_O[n as int], u.a_L[n as int] * u.a_R[n as int], q));
    lemma_eqm_mul(u.a_L[n as int], x, u.a_R[n as int], y, q);
}

/// Allocating and multiplying give a prover one more multiplier, with the
/// values that it asked for or the factors have, and change no other value; a
/// constraint changes no value at all.
pub proof fn law_values_kept(w: Witness, left: Terms, right: Terms, l: int, r: int, o: int, q: int, var: Variable)
    requires
        q > 1,
        w.a_L.len() == w.a_R.len() == w.a_O.len(),
        w.a_L.len() <= usize::MAX,
    ensures
        ({
            let n = w.a_L.len() as usize;
            let (a, m, c) = (allocated(w, l, r, o), multiplied(w, left, right, q), constrained(w, left));
            let (x, y) = (eval_terms(left, assignment(w)), eval_terms(right, assignment(w)));
            &&& value_of(a, Variable::MultiplierLeft(n)) == l
            &&& value_of(a, Variable::MultiplierRight(n)) == r
            &&& value_of(a, Variable::MultiplierOutput(n)) == o
            &&& a.constraints == w.constraints
            &&& eqm(value_of(m, Variable::MultiplierLeft(n)), x, q)
            &&& eqm(value_of(m, Variable::MultiplierRight(n)), y, q)
            &&& eqm(value_of(m, Variable::MultiplierOutput(n)), x * y, q)
            &&& m.constraints.take(w.constraints.len() as int) == w.constraints
            &&& m.constraints.len() == w.constraints.len() + 2
            &&& c.constraints.last() == left
            &&& c.constraints.drop_last() == w.constraints
            &&& a.a_L.len() == n + 1 && a.a_R.len() == n + 1 && a.a_O.len() == n + 1
            &&& m.a_L.len() == n + 1 && m.a_R.len() == n + 1 && m.a_O.len() == n + 1
            &&& c.a_L.len() == n && c.a_R.len() == n && c.a_O.len() == n
            &&& a.v_blinding == w.v_blinding && m.v_blinding == w.v_blinding && c.v_blinding == w.v_blinding
            &&& a.v.len() == w.v.len() && m.v.len() == w.v.len() && c.v.len() == w.v.len()
            &&& in_range(var, n as int, w.v.len() as int) ==> value_of(a, var) == value_of(w, var) && value_of(m, var)
                == value_of(w, var) && value_of(c, var) == value_of(w, var)
        }),
{
    let (x, y) = (eval_terms(left, assignment(w)), eval_terms(right, assignment(w)));
    lemma_md_range(x, q);
    lemma_md_range(y, q);
    lemma_eqm_mul(md(x, q), x, md(y, q), y, q);
    lemma_md_range(md(x, q) * md(y, q), q);
    let m = multiplied(w, left, right, q);
    assert(m.constraints.take(w.constraints.len() as int) =~= w.constraints);
    assert(constrained(w, left).constraints.drop_last() =~= w.constraints);
}

} // verus!
