//! What the constraints of a shuffle say.

use vstd::prelude::*;
use vstd::seq_lib::lemma_fold_left_permutation;
use crate::generators::GensView;
use crate::group::{Field, Group, encodes};
use crate::modular::{eqm, group_mod, lemma_eqm_add, lemma_eqm_mul, lemma_md_range, md, sub_mod};
use crate::r1cs::completeness::{challenges_invertible, law_r1cs_complete};
use crate::r1cs::constraint_system::{constraints_in_range, in_range};
use crate::r1cs::equations::Statement;
use crate::r1cs::honest::{Blindings, Ciphertexts};
use crate::r1cs::linear_combination::{Terms, Variable, eval_terms, law_eval_push, law_eval_scale};
use crate::r1cs::r1cs_proof::R1CSProof;
use crate::r1cs::system_laws::{law_constrain, law_multiply, law_prefix_commitment};
use crate::r1cs::witness::{Witness, assignment, satisfied, value_of};
use crate::shuffle::{
    final_constraint, gate, gates, input_variables, input_witness, lemma_product_in_range,
    lemma_shifted_in_range, product_constraints, product_terms, product_witness, prover_witness, shifted,
    shifted_product, shuffle_accepts, shuffle_challenge, shuffle_constraints, shuffle_log, shuffle_proved,
    shuffle_proved_with, shuffle_witness, variables_in_range, verifier_constraints,
};
use crate::sums::dot;
use crate::transcript::Log;

verus! {

broadcast use group_mod;

/// The values of the variables `x`.
pub open spec fn values_at(w: Witness, x: Seq<Variable>) -> Seq<int> {
    Seq::new(x.len(), |i: int| value_of(w, x[i]))
}

/// The variables from position `k` on are zero.
pub open spec fn zero_from(w: Witness, x: Seq<Variable>, k: int, q: int) -> bool {
    forall|j: int| k <= j < x.len() ==> eqm(value_of(w, #[trigger] x[j]), 0, q)
}

/// All of the constraints `cs` hold.
spec fn hold(cs: Seq<Terms>, w: Witness, q: int) -> bool {
    forall|c: int| 0 <= c < cs.len() ==> eqm(eval_terms(#[trigger] cs[c], assignment(w)), 0, q)
}

/// All multipliers multiply.
spec fn multiplies(w: Witness, q: int) -> bool {
    forall|i: int| 0 <= i < w.a_L.len() ==> eqm(#[trigger] w.a_O[i], w.a_L[i] * w.a_R[i], q)
}

proof fn lemma_negated(c: int, q: int)
    requires
        q > 1,
    ensures
        eqm(sub_mod(0, c, q), -c, q),
{
    reveal(sub_mod);
    reveal(md);
    lemma_md_range(0 - c, q);
}

/// The value of `var - c`.
proof fn lemma_shifted_value(w: Witness, var: Variable, c: int, q: int)
    requires
        q > 1,
    ensures
        eqm(eval_terms(shifted(var, c, q), assignment(w)), value_of(w, var) - c, q),
{
    let s: Terms = Seq::empty();
    let one = s.push((var, 1int));
    law_eval_push(s, var, 1, assignment(w));
    law_eval_push(one, Variable::One(), sub_mod(0, c, q), assignment(w));
    assert(one.push((Variable::One(), sub_mod(0, c, q))) =~= shifted(var, c, q));
    lemma_negated(c, q);
    lemma_eqm_add(value_of(w, var), value_of(w, var), sub_mod(0, c, q), -c, q);
}

/// A constraint `t - v = 0`, where `v` is the value of a variable, says that
/// `t` has this value.
proof fn lemma_bound(t: Terms, var: Variable, w: Witness, q: int)
    requires
        q > 1,
        eqm(eval_terms(t.push((var, sub_mod(0, 1, q))), assignment(w)), 0, q),
    ensures
        eqm(eval_terms(t, assignment(w)), value_of(w, var), q),
{
    let (e, v) = (eval_terms(t, assignment(w)), value_of(w, var));
    law_eval_push(t, var, sub_mod(0, 1, q), assignment(w));
    lemma_negated(1, q);
    lemma_eqm_mul(sub_mod(0, 1, q), -1, v, v, q);
    assert(-1 * v == -v) by (nonlinear_arith);
    lemma_eqm_add(e, e, sub_mod(0, 1, q) * v, -v, q);
    lemma_eqm_add(e - v, 0, v, v, q);
}

/// The constraints of a product are those of one factor less, and more.
proof fn lemma_prefix(cs: Seq<Terms>, n: nat, x: Seq<Variable>, z: int, k: int, i: int, w: Witness, q: int)
    requires
        i > 1,
        hold(product_constraints(cs, n, x, z, k, i, q), w, q),
    ensures
        hold(product_constraints(cs, n, x, z, k, i - 1, q), w, q),
{
    let all = product_constraints(cs, n, x, z, k, i, q);
    let some = product_constraints(cs, n, x, z, k, i - 1, q);
    assert forall|c: int| 0 <= c < some.len() implies eqm(
        eval_terms(#[trigger] some[c], assignment(w)),
        0,
        q,
    ) by {
        assert(all[c] == some[c]);
    }
}

/// Where the constraints hold, the linear combination that stands for the
/// product has the value of the product.
proof fn lemma_product_value(
    w: Witness,
    cs: Seq<Terms>,
    n: nat,
    x: Seq<Variable>,
    z: int,
    k: int,
    i: int,
    q: int,
)
    requires
        q > 1,
        k >= 0,
        1 <= i <= x.len(),
        n + x.len() <= usize::MAX,
        w.a_L.len() >= n + gates(k, i),
        hold(product_constraints(cs, n, x, z, k, i, q), w, q),
        multiplies(w, q),
    ensures
        eqm(
            eval_terms(product_terms(n, x, z, k, i, q), assignment(w)),
            shifted_product(values_at(w, x).take(i), z),
            q,
        ),
        forall|j: int| k <= j < i ==> eqm(value_of(w, #[trigger] x[j]), 0, q),
    decreases i,
{
    let a = assignment(w);
    let j = i - 1;
    let cons = product_constraints(cs, n, x, z, k, i, q);
    let t = product_terms(n, x, z, k, i, q);
    let v = value_of(w, x[j]);
    let s = values_at(w, x).take(i);
    assert(s.drop_last() =~= values_at(w, x).take(j));
    assert(s.last() == v);
    if i == 1 {
        assert(shifted_product(s, z) == v - z) by {
            assert(shifted_product(s.drop_last(), z) == 1);
        }
        if k == 0 {
            assert(cons.last() == shifted(x[0], 0, q));
            assert(eqm(eval_terms(cons[cons.len() - 1], a), 0, q));
            lemma_shifted_value(w, x[0], 0, q);
            let none: Terms = Seq::empty();
            law_eval_push(none, Variable::One(), sub_mod(0, z, q), a);
            assert(none.push((Variable::One(), sub_mod(0, z, q))) =~= t);
            lemma_negated(z, q);
            lemma_eqm_add(v, 0, -z, -z, q);
            assert(a(Variable::One()) == 1);
            assert(eval_terms(none, a) == 0);
            assert(eval_terms(t, a) == sub_mod(0, z, q));
            assert(eqm(v - z, 0 - z, q));
            assert(eqm(eval_terms(t, a), v - z, q));
        } else {
            lemma_shifted_value(w, x[0], z, q);
            assert(t == shifted(x[0], z, q));
        }
    } else {
        lemma_prefix(cs, n, x, z, k, i, w, q);
        lemma_product_value(w, cs, n, x, z, k, j, q);
        let before = product_terms(n, x, z, k, j, q);
        let p = shifted_product(values_at(w, x).take(j), z);
        let e = eval_terms(before, a);
        assert(shifted_product(s, z) == p * (v - z));
        if j >= k {
            assert(cons.last() == shifted(x[j], 0, q));
            assert(eqm(eval_terms(cons[cons.len() - 1], a), 0, q));
            lemma_shifted_value(w, x[j], 0, q);
            law_eval_scale(before, sub_mod(0, z, q), a, q);
            lemma_negated(z, q);
            lemma_eqm_add(v, 0, -z, -z, q);
            lemma_eqm_mul(sub_mod(0, z, q), v - z, e, p, q);
            assert((v - z) * p == p * (v - z)) by (nonlinear_arith);
            assert(eqm(eval_terms(t, a), p * (v - z), q));
        } else {
            let g = gate(n, j);
            let (l, r) = (Variable::MultiplierLeft(g), Variable::MultiplierRight(g));
            let last = cons.len() - 1;
            assert(cons[last - 1] == before.push((l, sub_mod(0, 1, q))));
            assert(cons[last] == shifted(x[j], z, q).push((r, sub_mod(0, 1, q))));
            assert(eqm(eval_terms(cons[last - 1], a), 0, q));
            assert(eqm(eval_terms(cons[last], a), 0, q));
            lemma_bound(before, l, w, q);
            lemma_bound(shifted(x[j], z, q), r, w, q);
            lemma_shifted_value(w, x[j], z, q);
            let (lv, rv) = (value_of(w, l), value_of(w, r));
            assert(eqm(w.a_O[g as int], lv * rv, q));
            lemma_eqm_mul(lv, p, rv, v - z, q);
            let none: Terms = Seq::empty();
            let o = Variable::MultiplierOutput(g);
            law_eval_push(none, o, 1, a);
            assert(none.push((o, 1int)) =~= t);
            assert(eval_terms(t, a) == w.a_O[g as int]);
            assert(eqm(lv * rv, p * (v - z), q));
            assert(eqm(eval_terms(t, a), p * (v - z), q));
        }
    }
}

/// The constraint on the whole product says that two products are congruent.
proof fn lemma_final(w: Witness, n: nat, x: Seq<Variable>, y: Seq<int>, z: int, k: int, q: int)
    requires
        q > 1,
        eqm(
            eval_terms(product_terms(n, x, z, k, x.len() as int, q), assignment(w)),
            shifted_product(values_at(w, x), z),
            q,
        ),
    ensures
        eqm(eval_terms(final_constraint(n, x, y, z, k, q), assignment(w)), 0, q) <==> eqm(
            shifted_product(values_at(w, x), z),
            shifted_product(y, z),
            q,
        ),
{
    let t = product_terms(n, x, z, k, x.len() as int, q);
    let e = eval_terms(t, assignment(w));
    let (p, r) = (shifted_product(values_at(w, x), z), shifted_product(y, z));
    let c = sub_mod(0, md(r, q), q);
    law_eval_push(t, Variable::One(), c, assignment(w));
    lemma_md_range(r, q);
    lemma_negated(md(r, q), q);
    assert(-1 * md(r, q) == -md(r, q) && -1 * r == -r) by (nonlinear_arith);
    lemma_eqm_mul(-1, -1, md(r, q), r, q);
    lemma_eqm_add(e, p, c, -r, q);
    if eqm(p - r, 0, q) {
        lemma_eqm_add(p - r, 0, r, r, q);
    }
    if eqm(p, r, q) {
        lemma_eqm_add(p, r, -r, -r, q);
    }
}

/// Soundness of the constraints: whoever satisfies them has inputs that are
/// zero from position `k` on, and whose differences from the challenge have
/// the same product as those of `y`.
pub proof fn law_shuffle_sound(
    w: Witness,
    cs: Seq<Terms>,
    n: nat,
    x: Seq<Variable>,
    y: Seq<int>,
    z: int,
    k: int,
    q: int,
)
    requires
        q > 1,
        k >= 0,
        x.len() > 0,
        n + x.len() <= usize::MAX,
        w.a_L.len() >= n + gates(k, x.len() as int),
        w.constraints == shuffle_constraints(cs, n, x, y, z, k, q),
        satisfied(w, q),
    ensures
        zero_from(w, x, k, q),
        eqm(shifted_product(values_at(w, x), z), shifted_product(y, z), q),
{
    let i = x.len() as int;
    let cons = product_constraints(cs, n, x, z, k, i, q);
    assert forall|c: int| 0 <= c < cons.len() implies eqm(
        eval_terms(#[trigger] cons[c], assignment(w)),
        0,
        q,
    ) by {
        assert(w.constraints[c] == cons[c]);
    }
    lemma_product_value(w, cs, n, x, z, k, i, q);
    assert(values_at(w, x).take(i) =~= values_at(w, x));
    lemma_final(w, n, x, y, z, k, q);
    assert(w.constraints[cons.len() as int] == final_constraint(n, x, y, z, k, q));
}

/// What a prover holds after the first `i` factors.
proof fn lemma_product_witness(w: Witness, x: Seq<Variable>, z: int, k: int, i: int, q: int)
    requires
        q > 1,
        k >= 0,
        1 <= i <= x.len(),
        w.a_L.len() + x.len() <= usize::MAX,
        w.a_L.len() == w.a_R.len() == w.a_O.len(),
        variables_in_range(x, w.a_L.len() as int, w.v.len() as int),
        constraints_in_range(w.constraints, w.a_L.len() as int, w.v.len() as int),
    ensures
        ({
            let n = w.a_L.len();
            let u = product_witness(w, n, x, z, k, i, q);
            &&& u.a_L.len() == n + gates(k, i)
            &&& u.a_L.len() == u.a_R.len() == u.a_O.len()
            &&& u.v == w.v
            &&& forall|j: int| 0 <= j < n ==> #[trigger] u.a_L[j] == w.a_L[j]
            &&& forall|j: int| 0 <= j < n ==> #[trigger] u.a_R[j] == w.a_R[j]
            &&& forall|j: int| 0 <= j < n ==> #[trigger] u.a_O[j] == w.a_O[j]
            &&& u.constraints == product_constraints(w.constraints, n, x, z, k, i, q)
            &&& constraints_in_range(u.constraints, u.a_L.len() as int, u.v.len() as int)
            &&& satisfied(u, q) <==> {
                &&& satisfied(w, q)
                &&& forall|j: int| k <= j < i ==> eqm(value_of(w, #[trigger] x[j]), 0, q)
            }
        }),
    decreases i,
{
    let n = w.a_L.len();
    let m = w.v.len() as int;
    let j = i - 1;
    let u = product_witness(w, n, x, z, k, i, q);
    assert(in_range(x[j], n as int, m));
    if i == 1 {
        if k == 0 {
            lemma_shifted_value(w, x[0], 0, q);
            law_constrain(w, shifted(x[0], 0, q), q);
            lemma_shifted_in_range(x[0], 0, n as int, n as int, m, q);
        }
    } else {
        lemma_product_witness(w, x, z, k, j, q);
        let before = product_witness(w, n, x, z, k, j, q);
        let p = product_terms(n, x, z, k, j, q);
        assert(value_of(before, x[j]) == value_of(w, x[j]));
        lemma_shifted_in_range(x[j], 0, n as int, before.a_L.len() as int, m, q);
        lemma_shifted_in_range(x[j], z, n as int, before.a_L.len() as int, m, q);
        if j >= k {
            lemma_shifted_value(before, x[j], 0, q);
            law_constrain(before, shifted(x[j], 0, q), q);
        } else {
            lemma_product_in_range(n, x, z, k, j, m, q);
            law_multiply(before, p, shifted(x[j], z, q), q);
            assert(before.a_L.len() as usize == gate(n, j));
            assert(u.constraints =~= product_constraints(w.constraints, n, x, z, k, i, q));
        }
    }
}

/// Completeness of the constraints: a prover whose inputs are zero from
/// position `k` on, and whose differences from the challenge have the same
/// product as those of `y`, satisfies them; and no other prover does.
pub proof fn law_shuffle_complete(w: Witness, x: Seq<Variable>, y: Seq<int>, z: int, k: int, q: int)
    requires
        q > 1,
        k >= 0,
        x.len() > 0,
        w.a_L.len() + x.len() <= usize::MAX,
        w.a_L.len() == w.a_R.len() == w.a_O.len(),
        variables_in_range(x, w.a_L.len() as int, w.v.len() as int),
        constraints_in_range(w.constraints, w.a_L.len() as int, w.v.len() as int),
    ensures
        ({
            let n = w.a_L.len();
            let u = shuffle_witness(w, n, x, y, z, k, q);
            &&& u.constraints == shuffle_constraints(w.constraints, n, x, y, z, k, q)
            &&& u.a_L.len() == n + gates(k, x.len() as int)
            &&& u.a_L.len() == u.a_R.len() == u.a_O.len()
            &&& u.v == w.v
            &&& u.v_blinding == w.v_blinding
            &&& constraints_in_range(u.constraints, u.a_L.len() as int, u.v.len() as int)
            &&& satisfied(u, q) <==> {
                &&& satisfied(w, q)
                &&& zero_from(w, x, k, q)
                &&& eqm(shifted_product(values_at(w, x), z), shifted_product(y, z), q)
            }
        }),
{
    let n = w.a_L.len();
    let m = w.v.len() as int;
    let i = x.len() as int;
    let u = product_witness(w, n, x, z, k, i, q);
    let t = final_constraint(n, x, y, z, k, q);
    lemma_product_witness(w, x, z, k, i, q);
    law_constrain(u, t, q);
    lemma_product_in_range(n, x, z, k, i, m, q);
    lemma_same_blinding(w, n, x, z, k, i, q);
    assert(values_at(u, x) =~= values_at(w, x)) by {
        assert forall|j: int| 0 <= j < x.len() implies value_of(u, #[trigger] x[j]) == value_of(w, x[j]) by {
            assert(in_range(x[j], n as int, m));
        }
    }
    if satisfied(u, q) {
        lemma_product_value(u, w.constraints, n, x, z, k, i, q);
        assert(values_at(u, x).take(i) =~= values_at(u, x));
        lemma_final(u, n, x, y, z, k, q);
    }
}

proof fn lemma_same_blinding(w: Witness, n: nat, x: Seq<Variable>, z: int, k: int, i: int, q: int)
    ensures
        product_witness(w, n, x, z, k, i, q).v_blinding == w.v_blinding,
    decreases i,
{
    if i > 1 {
        lemma_same_blinding(w, n, x, z, k, i - 1, q);
    }
}

/// A permutation of the factors does not change the product.
pub proof fn law_permutation_product(s: Seq<int>, t: Seq<int>, z: int)
    requires
        s.to_multiset() == t.to_multiset(),
    ensures
        shifted_product(s, z) == shifted_product(t, z),
{
    let f = |b: int, a: int| b * (a - z);
    assert forall|x: int, y: int, v: int| #[trigger] f(f(v, x), y) == f(f(v, y), x) by {
        assert((v * (x - z)) * (y - z) == (v * (y - z)) * (x - z)) by (nonlinear_arith);
    }
    lemma_fold_left_permutation(s, t, f, 1);
    lemma_product_is_fold(s, z);
    lemma_product_is_fold(t, z);
}

proof fn lemma_product_is_fold(s: Seq<int>, z: int)
    ensures
        shifted_product(s, z) == s.fold_left(1, |b: int, a: int| b * (a - z)),
    decreases s.len(),
{
    if s.len() > 0 {
        lemma_product_is_fold(s.drop_last(), z);
    }
}

/// Whatever the challenge, a prover whose inputs are a permutation of `y` that
/// is zero from position `k` on satisfies the constraints of the shuffle.
pub proof fn law_permutation_satisfies(w: Witness, x: Seq<Variable>, y: Seq<int>, z: int, k: int, q: int)
    requires
        q > 1,
        k >= 0,
        x.len() > 0,
        w.a_L.len() + x.len() <= usize::MAX,
        w.a_L.len() == w.a_R.len() == w.a_O.len(),
        variables_in_range(x, w.a_L.len() as int, w.v.len() as int),
        constraints_in_range(w.constraints, w.a_L.len() as int, w.v.len() as int),
        satisfied(w, q),
        values_at(w, x).to_multiset() == y.to_multiset(),
        forall|j: int| k <= j < x.len() ==> value_of(w, #[trigger] x[j]) == 0,
    ensures
        satisfied(shuffle_witness(w, w.a_L.len(), x, y, z, k, q), q),
{
    law_shuffle_complete(w, x, y, z, k, q);
    law_permutation_product(values_at(w, x), y, z);
}

/// The constraints and the witness of a shuffle fit each other.
pub proof fn lemma_shuffle_shape<G: Group>(
    log: Log,
    y: Seq<int>,
    x: Seq<int>,
    v_blinding: int,
    v: G::Encoding,
    k_original: int,
)
    requires
        x.len() == y.len(),
        0 < x.len() <= usize::MAX,
        0 <= k_original <= x.len(),
    ensures
        ({
            let u = prover_witness::<G>(log, y, x, v_blinding, v, k_original);
            let n = gates(k_original, x.len() as int);
            &&& u.constraints == verifier_constraints::<G>(log, y, v, k_original)
            &&& u.a_L.len() == n
            &&& u.a_R.len() == n
            &&& u.a_O.len() == n
            &&& u.v == x
            &&& u.v_blinding == v_blinding
            &&& n <= x.len()
            &&& constraints_in_range(u.constraints, n as int, x.len() as int)
        }),
{
    G::Scalar::modulus_range();
    law_shuffle_complete(
        input_witness(x, v_blinding),
        input_variables(x.len()),
        y,
        shuffle_challenge::<G>(log, x.len(), v),
        k_original,
        G::Scalar::modulus(),
    );
}

/// A shuffle is accepted: if the outputs are a permutation of the inputs that
/// is zero behind the ciphertexts, and the pair that comes out is what the
/// outputs make of the ciphertexts, the verifier accepts what an honest prover
/// sends, whatever weight it draws, unless a challenge that has to be inverted
/// is zero. The commitment may leave out outputs behind the ciphertexts.
#[verifier::spinoff_prover]
#[verifier::rlimit(40)]
pub proof fn law_shuffle_accepted<G: Group>(
    p: R1CSProof<G>,
    v: G::Encoding,
    input: Seq<int>,
    output: Seq<int>,
    v_blinding: int,
    committed: int,
    gens: GensView,
    ct: Ciphertexts,
    st: Statement,
    log: Log,
    k_fold: int,
    rounds: int,
    r: int,
)
    requires
        k_fold >= 1,
        2 * k_fold <= usize::MAX,
        rounds >= 0,
        0 < input.len() <= usize::MAX,
        input.len() <= gens.g.len(),
        input.len() <= gens.h.len(),
        ct.c1.len() == ct.c2.len(),
        ct.c1.len() <= committed <= output.len(),
        input.to_multiset() == output.to_multiset(),
        forall|i: int| ct.c1.len() <= i < output.len() ==> #[trigger] output[i] == 0,
        encodes::<G>(
            v,
            md(v_blinding * gens.b_blinding + dot(output.take(committed), gens.g), G::Scalar::modulus()),
        ),
        st.c1 == ct.c1,
        st.c2 == ct.c2,
        eqm(
            st.c_0,
            dot(output.take(ct.c1.len() as int), ct.c1) + ct.r_prime * gens.b,
            G::Scalar::modulus(),
        ),
        eqm(
            st.c_1,
            dot(output.take(ct.c1.len() as int), ct.c2) + ct.r_prime * gens.f,
            G::Scalar::modulus(),
        ),
        shuffle_proved(p, v, input, output, v_blinding, gens, ct, log, k_fold, rounds),
        challenges_invertible(p, shuffle_log::<G>(log, output.len(), v), output.len() as int),
    ensures
        p.shaped(),
        shuffle_accepts(p, v, input, gens, st, log, r),
{
    let q = G::Scalar::modulus();
    G::Scalar::modulus_range();
    let k0 = ct.c1.len() as int;
    let x = input_variables(output.len());
    let w = input_witness(output, v_blinding);
    let z = shuffle_challenge::<G>(log, output.len(), v);
    let u = prover_witness::<G>(log, input, output, v_blinding, v, k0);
    input.to_multiset_ensures();
    output.to_multiset_ensures();
    assert(input.len() == output.len());
    lemma_shuffle_shape::<G>(log, input, output, v_blinding, v, k0);
    assert(values_at(w, x) =~= output);
    law_permutation_satisfies(w, x, input, z, k0, q);
    law_prefix_commitment(output, gens.g, committed);
    let b = choose|b: Blindings| #[trigger]
        shuffle_proved_with(p, v, input, output, v_blinding, b, gens, ct, log, k_fold, rounds);
    law_r1cs_complete(
        p,
        v,
        u,
        b,
        gens,
        ct,
        st,
        shuffle_log::<G>(log, output.len(), v),
        k_fold,
        rounds,
        r,
    );
}

} // verus!
