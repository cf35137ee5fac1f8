//! What the prover and the verifier of a shuffle state of their inputs.

use vstd::prelude::*;
use crate::generators::GensView;
use crate::group::{Field, Group};
use crate::modular::eqm;
use crate::r1cs::equations::{Statement, accepts};
use crate::r1cs::honest::{Blindings, Ciphertexts, honest};
use crate::r1cs::linear_combination::Variable;
use crate::r1cs::r1cs_proof::R1CSProof;
use crate::r1cs::witness::{Witness, satisfied};
use crate::shuffle::{
    inputs_log, prover_witness, shifted_product, shuffle_accepts, shuffle_constraints, shuffle_log,
    shuffle_proved_with, shuffle_witness, verifier_constraints,
};
use crate::shuffle_laws::{law_shuffle_sound, lemma_shuffle_shape, values_at, zero_from};
use crate::transcript::{Log, challenge};

verus! {

/// The product of the differences to `z` is one for no entries, the difference
/// for one entry, and multiplicative.
pub proof fn law_shifted_product(s: Seq<int>, t: Seq<int>, a: int, z: int)
    ensures
        shifted_product(Seq::empty(), z) == 1,
        shifted_product(seq![a], z) == a - z,
        shifted_product(s + t, z) == shifted_product(s, z) * shifted_product(t, z),
    decreases t.len(),
{
    let one: Seq<int> = seq![a];
    assert(one.drop_last() =~= Seq::<int>::empty());
    assert(shifted_product(one, z) == shifted_product(one.drop_last(), z) * (a - z));
    assert(1 * (a - z) == a - z);
    if t.len() == 0 {
        assert(s + t =~= s);
        let p = shifted_product(s, z);
        assert(p * 1 == p);
    } else {
        law_shifted_product(s, t.drop_last(), a, z);
        assert((s + t).drop_last() =~= s + t.drop_last());
        assert((s + t).last() == t.last());
        let (p, r, d) = (shifted_product(s, z), shifted_product(t.drop_last(), z), t.last() - z);
        assert((p * r) * d == p * (r * d)) by (nonlinear_arith);
    }
}

/// The product of the differences vanishes at every entry.
pub proof fn law_shifted_product_roots(s: Seq<int>, i: int)
    requires
        0 <= i < s.len(),
    ensures
        shifted_product(s, s[i]) == 0,
{
    let z = s[i];
    let (l, m, r) = (s.take(i), seq![z], s.skip(i + 1));
    assert(s =~= l + (m + r));
    law_shifted_product(l, m + r, z, z);
    law_shifted_product(m, r, z, z);
    let (a, b) = (shifted_product(l, z), shifted_product(r, z));
    assert(a * ((z - z) * b) == 0) by (nonlinear_arith);
}

/// The inputs of a shuffle, as variables.
pub open spec fn committed_inputs(k: nat) -> Seq<Variable> {
    Seq::new(k, |i: int| Variable::Committed(i as usize))
}

/// The inputs that satisfy the constraints of a verifier have the product of
/// differences of the scalars `y`, at the challenge that was drawn after the
/// commitment to them, and are zero behind the ciphertexts.
pub proof fn law_verified_shuffle<G: Group>(w: Witness, log: Log, y: Seq<int>, v: G::Encoding, k_original: int)
    requires
        0 < y.len() <= usize::MAX,
        k_original >= 0,
        w.v.len() == y.len(),
        w.a_L.len() >= (if y.len() <= k_original {
            y.len()
        } else {
            k_original as nat
        }),
        w.constraints == verifier_constraints::<G>(log, y, v, k_original),
        satisfied(w, G::Scalar::modulus()),
    ensures
        ({
            let q = G::Scalar::modulus();
            let z = challenge::<G::Scalar>(
                inputs_log::<G>(log, y.len(), v),
                "k-scalar shuffle challenge"@,
            );
            &&& eqm(shifted_product(w.v, z), shifted_product(y, z), q)
            &&& forall|i: int| k_original <= i < y.len() ==> eqm(#[trigger] w.v[i], 0, q)
        }),
{
    let q = G::Scalar::modulus();
    G::Scalar::modulus_range();
    let z = challenge::<G::Scalar>(inputs_log::<G>(log, y.len(), v), "k-scalar shuffle challenge"@);
    let x = committed_inputs(y.len());
    assert(w.constraints == shuffle_constraints(Seq::empty(), 0, x, y, z, k_original, q));
    law_shuffle_sound(w, Seq::empty(), 0, x, y, z, k_original, q);
    assert(values_at(w, x) =~= w.v);
    assert forall|i: int| k_original <= i < y.len() implies eqm(#[trigger] w.v[i], 0, q) by {
        assert(zero_from(w, x, k_original, q));
        assert(x[i] == Variable::Committed(i as usize));
    }
}

/// The verifier of a shuffle asks for the constraints of the shuffle of `y`
/// into the inputs, with one multiplier for each difference after the first
/// that is not known, and with the challenge drawn after the commitment.
pub proof fn law_shuffle_statement<G: Group>(
    p: R1CSProof<G>,
    v: G::Encoding,
    y: Seq<int>,
    gens: GensView,
    st: Statement,
    log: Log,
    r: int,
)
    ensures
        ({
            let k = y.len() as int;
            let k_original = st.c1.len() as int;
            let used = if k <= k_original {
                k
            } else {
                k_original
            };
            let z = challenge::<G::Scalar>(
                inputs_log::<G>(log, y.len(), v),
                "k-scalar shuffle challenge"@,
            );
            shuffle_accepts(p, v, y, gens, st, log, r) <==> accepts(
                p,
                v,
                shuffle_constraints(
                    Seq::empty(),
                    0,
                    committed_inputs(y.len()),
                    y,
                    z,
                    k_original,
                    G::Scalar::modulus(),
                ),
                if used <= 1 {
                    0
                } else {
                    used - 1
                },
                k,
                gens,
                st,
                shuffle_log::<G>(log, y.len(), v),
                r,
            )
        }),
{
    assert(committed_inputs(y.len()) =~= crate::shuffle::input_variables(y.len()));
}

/// The prover of a shuffle of `y` into `x` has `x` as its inputs, and states
/// what the verifier asks for.
pub proof fn law_prover_statement<G: Group>(
    log: Log,
    y: Seq<int>,
    x: Seq<int>,
    v_blinding: int,
    v: G::Encoding,
    k_original: int,
)
    requires
        x.len() == y.len(),
        0 < x.len() <= usize::MAX,
        0 <= k_original <= x.len(),
    ensures
        ({
            let u = prover_witness::<G>(log, y, x, v_blinding, v, k_original);
            let start = Witness {
                a_L: Seq::empty(),
                a_R: Seq::empty(),
                a_O: Seq::empty(),
                v: x,
                v_blinding,
                constraints: Seq::empty(),
            };
            let z = challenge::<G::Scalar>(
                inputs_log::<G>(log, x.len(), v),
                "k-scalar shuffle challenge"@,
            );
            &&& u == shuffle_witness(start, 0, committed_inputs(x.len()), y, z, k_original, G::Scalar::modulus())
            &&& u.v == x
            &&& u.v_blinding == v_blinding
            &&& u.constraints == verifier_constraints::<G>(log, y, v, k_original)
        }),
{
    assert(committed_inputs(x.len()) =~= crate::shuffle::input_variables(x.len()));
    lemma_shuffle_shape::<G>(log, y, x, v_blinding, v, k_original);
}

/// What a prover of a shuffle sends is what an honest prover sends of the
/// witness of the shuffle, with as many random scalars as that takes.
pub proof fn law_shuffle_proved<G: Group>(
    p: R1CSProof<G>,
    v: G::Encoding,
    input: Seq<int>,
    output: Seq<int>,
    v_blinding: int,
    b: Blindings,
    gens: GensView,
    ct: Ciphertexts,
    log: Log,
    k_fold: int,
    rounds: int,
)
    requires
        input.len() == output.len(),
        0 < input.len() <= usize::MAX,
        ct.c1.len() <= input.len(),
        shuffle_proved_with(p, v, input, output, v_blinding, b, gens, ct, log, k_fold, rounds),
    ensures
        ({
            let w = prover_witness::<G>(log, input, output, v_blinding, v, ct.c1.len() as int);
            &&& honest(p, w, b, gens, ct, shuffle_log::<G>(log, output.len(), v), k_fold, rounds)
            &&& w.v == output
            &&& b.s_L.len() == w.a_L.len()
            &&& b.s_R.len() == w.a_R.len()
            &&& b.s_L_prime.len() == ct.c1.len()
        }),
{
    lemma_shuffle_shape::<G>(log, input, output, v_blinding, v, ct.c1.len() as int);
}

} // verus!
