//! The constraints that say that some inputs are a permutation of given
//! scalars.

use merlin::Transcript;
use vstd::prelude::*;
use vstd::utf8::is_ascii_chars_encode_utf8;
use crate::generators::{BulletproofGens, GensView, PedersenGens};
use crate::group::{Field, Group, encodes, indices, values};
use crate::modular::{group_mod, lemma_md_small, md, sub_mod};
use crate::r1cs::constraint_system::{ConstraintSystem, in_range, terms_in_range};
use crate::r1cs::equations::{Statement, accepts};
use crate::r1cs::honest::{Blindings, Ciphertexts, honest};
use crate::r1cs::linear_combination::{LinearCombination, Terms, Variable, scale_terms};
use crate::r1cs::prove::{Prover, ProverCS};
use crate::r1cs::r1cs_proof::R1CSProof;
use crate::r1cs::verify::{Verifier, VerifierCS};
use crate::r1cs::witness::{Witness, constrained, multiplied};
use crate::sums::dot;
use crate::transcript::{
    Log, TranscriptProtocol, append, append_number, append_scalar, append_text, challenge, challenged,
    commit_text, transcript_log,
};

verus! {

broadcast use group_mod;

/// The product of the differences `s[i] - z`.
pub open spec fn shifted_product(s: Seq<int>, z: int) -> int
    decreases s.len(),
{
    if s.len() == 0 {
        1
    } else {
        shifted_product(s.drop_last(), z) * (s.last() - z)
    }
}

/// The terms of `var - c`.
pub open spec fn shifted(var: Variable, c: int, q: int) -> Terms {
    seq![(var, 1int), (Variable::One(), sub_mod(0, c, q))]
}

/// The index of the multiplier that multiplies by the difference at position
/// `j`, where there were `n` multipliers before.
pub open spec fn gate(n: nat, j: int) -> usize {
    (n + j - 1) as usize
}

/// The linear combination that stands for the product of the first `i`
/// differences `x[j] - z`.
///
/// From position `k` on the variables are zero, so that the product is only
/// multiplied by `-z`.
pub open spec fn product_terms(n: nat, x: Seq<Variable>, z: int, k: int, i: int, q: int) -> Terms
    decreases i,
{
    let j = i - 1;
    if i <= 1 {
        if k == 0 {
            seq![(Variable::One(), sub_mod(0, z, q))]
        } else {
            shifted(x[0], z, q)
        }
    } else if j >= k {
        scale_terms(product_terms(n, x, z, k, j, q), sub_mod(0, z, q), q)
    } else {
        seq![(Variable::MultiplierOutput(gate(n, j)), 1int)]
    }
}

/// The number of multipliers that the first `i` differences take.
pub open spec fn gates(k: int, i: int) -> nat {
    if i <= 1 || k <= 1 {
        0
    } else if i <= k {
        (i - 1) as nat
    } else {
        (k - 1) as nat
    }
}

/// The constraints `cs`, followed by those for the first `i` differences.
pub open spec fn product_constraints(
    cs: Seq<Terms>,
    n: nat,
    x: Seq<Variable>,
    z: int,
    k: int,
    i: int,
    q: int,
) -> Seq<Terms>
    decreases i,
{
    let j = i - 1;
    if i <= 1 {
        if k == 0 {
            cs.push(shifted(x[0], 0, q))
        } else {
            cs
        }
    } else {
        let before = product_constraints(cs, n, x, z, k, j, q);
        if j >= k {
            before.push(shifted(x[j], 0, q))
        } else {
            before.push(
                product_terms(n, x, z, k, j, q).push((Variable::MultiplierLeft(gate(n, j)), sub_mod(0, 1, q))),
            ).push(shifted(x[j], z, q).push((Variable::MultiplierRight(gate(n, j)), sub_mod(0, 1, q))))
        }
    }
}

/// The witness `w`, extended by the multipliers and constraints for the first
/// `i` differences.
pub open spec fn product_witness(
    w: Witness,
    n: nat,
    x: Seq<Variable>,
    z: int,
    k: int,
    i: int,
    q: int,
) -> Witness
    decreases i,
{
    let j = i - 1;
    if i <= 1 {
        if k == 0 {
            constrained(w, shifted(x[0], 0, q))
        } else {
            w
        }
    } else {
        let before = product_witness(w, n, x, z, k, j, q);
        if j >= k {
            constrained(before, shifted(x[j], 0, q))
        } else {
            multiplied(before, product_terms(n, x, z, k, j, q), shifted(x[j], z, q), q)
        }
    }
}

/// The constraint that the product of all differences `x[j] - z` is that of
/// the differences `y[j] - z`.
pub open spec fn final_constraint(n: nat, x: Seq<Variable>, y: Seq<int>, z: int, k: int, q: int) -> Terms {
    product_terms(n, x, z, k, x.len() as int, q).push(
        (Variable::One(), sub_mod(0, md(shifted_product(y, z), q), q)),
    )
}

/// The constraints `cs`, followed by those of the shuffle of `y` into `x`.
pub open spec fn shuffle_constraints(
    cs: Seq<Terms>,
    n: nat,
    x: Seq<Variable>,
    y: Seq<int>,
    z: int,
    k: int,
    q: int,
) -> Seq<Terms> {
    product_constraints(cs, n, x, z, k, x.len() as int, q).push(final_constraint(n, x, y, z, k, q))
}

/// The witness `w`, extended by the multipliers and constraints of the
/// shuffle of `y` into `x`.
pub open spec fn shuffle_witness(
    w: Witness,
    n: nat,
    x: Seq<Variable>,
    y: Seq<int>,
    z: int,
    k: int,
    q: int,
) -> Witness {
    constrained(product_witness(w, n, x, z, k, x.len() as int, q), final_constraint(n, x, y, z, k, q))
}

/// All variables are in range.
pub open spec fn variables_in_range(x: Seq<Variable>, n: int, m: int) -> bool {
    forall|i: int| 0 <= i < x.len() ==> in_range(#[trigger] x[i], n, m)
}

/// The terms of the product are in range.
pub proof fn lemma_product_in_range(n: nat, x: Seq<Variable>, z: int, k: int, i: int, m: int, q: int)
    requires
        1 <= i <= x.len(),
        k >= 0,
        n + x.len() <= usize::MAX,
        variables_in_range(x, n as int, m),
    ensures
        terms_in_range(product_terms(n, x, z, k, i, q), (n + gates(k, i)) as int, m),
    decreases i,
{
    let t = product_terms(n, x, z, k, i, q);
    let j = i - 1;
    assert(in_range(x[0], n as int, m));
    if i > 1 && j >= k {
        lemma_product_in_range(n, x, z, k, j, m, q);
        let s = product_terms(n, x, z, k, j, q);
        assert forall|e: int| 0 <= e < t.len() implies in_range(
            (#[trigger] t[e]).0,
            (n + gates(k, i)) as int,
            m,
        ) by {
            assert(in_range(s[e].0, (n + gates(k, j)) as int, m));
        }
    }
}

/// A variable that is in range stays so when multipliers are added.
pub proof fn lemma_shifted_in_range(var: Variable, c: int, n: int, more: int, m: int, q: int)
    requires
        in_range(var, n, m),
        more >= n,
    ensures
        terms_in_range(shifted(var, c, q), more, m),
{
}

/// The product of the differences `y[i] - z`.
fn product_of_differences<F: Field>(y: &[F], z: F) -> (r: F)
    ensures
        r.value() == md(shifted_product(values(y@), z.value()), F::modulus()),
{
    let ghost q = F::modulus();
    let mut out = F::one();
    proof {
        F::modulus_range();
        lemma_md_small(1, q);
        assert(values(y@).take(0) =~= Seq::empty());
    }
    let mut i: usize = 0;
    while i < y.len()
        invariant
            i <= y@.len(),
            q == F::modulus(),
            q > 1,
            out.value() == md(shifted_product(values(y@).take(i as int), z.value()), q),
        decreases y@.len() - i,
    {
        proof {
            y@[i as int].value_range();
            z.value_range();
            let s = values(y@).take(i + 1);
            assert(s.drop_last() =~= values(y@).take(i as int));
            assert(s.last() == y@[i as int].value());
        }
        out = out.times(y[i].minus(z));
        i += 1;
    }
    assert(values(y@).take(i as int) =~= values(y@));
    out
}

/// `var - c`.
fn minus_constant<F: Field>(var: Variable, c: F) -> (r: LinearCombination<F>)
    ensures
        r@ == shifted(var, c.value(), F::modulus()),
{
    let r = LinearCombination::from(var) - c;
    assert(r@ =~= shifted(var, c.value(), F::modulus()));
    r
}

/// Adds the constraints of a shuffle: the first `k_original` of the inputs `x`
/// and as many zeros are a permutation of the scalars `y`.
///
/// For a challenge `z`, the product of all `x[i] - z` has to be that of all
/// `y[i] - z`.
pub fn fill_cs<G: Group, CS: ConstraintSystem<G>>(
    cs: &mut CS,
    x: &[Variable],
    y: &[G::Scalar],
    k_original: usize,
)
    requires
        old(cs).wf(),
        x@.len() == y@.len(),
        x@.len() > 0,
        variables_in_range(x@, old(cs).multipliers() as int, old(cs).inputs() as int),
        old(cs).multipliers() + x@.len() <= usize::MAX,
    ensures
        final(cs).wf(),
        final(cs).setting() == old(cs).setting(),
        final(cs).inputs() == old(cs).inputs(),
        final(cs).log() == challenged(old(cs).log(), "k-scalar shuffle challenge"@),
        final(cs).multipliers() == old(cs).multipliers() + gates(k_original as int, x@.len() as int),
        final(cs).constraints() == shuffle_constraints(
            old(cs).constraints(),
            old(cs).multipliers(),
            x@,
            values(y@),
            challenge::<G::Scalar>(old(cs).log(), "k-scalar shuffle challenge"@),
            k_original as int,
            G::Scalar::modulus(),
        ),
        final(cs).assigned() == match old(cs).assigned() {
            Some(w) => Some(
                shuffle_witness(
                    w,
                    old(cs).multipliers(),
                    x@,
                    values(y@),
                    challenge::<G::Scalar>(old(cs).log(), "k-scalar shuffle challenge"@),
                    k_original as int,
                    G::Scalar::modulus(),
                ),
            ),
            None => None,
        },
{
    let ghost q = G::Scalar::modulus();
    let ghost n = cs.multipliers();
    let ghost m = cs.inputs();
    let ghost cs0 = cs.constraints();
    let ghost k0 = k_original as int;
    let ghost log0 = cs.log();
    let z = cs.challenge_scalar("k-scalar shuffle challenge");
    let ghost zv = z.value();
    let k: usize = x.len();
    let prod_y = product_of_differences(y, z);
    proof {
        G::Scalar::modulus_range();
        assert(in_range(x@[0], n as int, m as int));
    }
    let mut prev_lc = if k_original == 0 {
        cs.constrain(minus_constant(x[0], G::Scalar::zero()));
        LinearCombination::from(z.negate())
    } else {
        minus_constant(x[0], z)
    };
    let mut i: usize = 1;
    while i < k
        invariant
            1 <= i <= k,
            k == x@.len(),
            q == G::Scalar::modulus(),
            zv == z.value(),
            k0 == k_original,
            n + x@.len() <= usize::MAX,
            variables_in_range(x@, n as int, m as int),
            cs.wf(),
            cs.setting() == old(cs).setting(),
            cs.inputs() == m,
            cs.log() == challenged(log0, "k-scalar shuffle challenge"@),
            cs.multipliers() == n + gates(k0, i as int),
            cs.constraints() == product_constraints(cs0, n, x@, zv, k0, i as int, q),
            prev_lc@ == product_terms(n, x@, zv, k0, i as int, q),
            cs.assigned() == match old(cs).assigned() {
                Some(w) => Some(product_witness(w, n, x@, zv, k0, i as int, q)),
                None => None,
            },
        decreases k - i,
    {
        proof {
            lemma_product_in_range(n, x@, zv, k0, i as int, m as int, q);
            assert(in_range(x@[i as int], n as int, m as int));
            lemma_shifted_in_range(x@[i as int], zv, n as int, cs.multipliers() as int, m as int, q);
        }
        if i >= k_original {
            cs.constrain(minus_constant(x[i], G::Scalar::zero()));
            prev_lc = prev_lc * z.negate();
        } else {
            let term = minus_constant(x[i], z);
            proof {
                cs.knows_in_range(prev_lc@);
                cs.knows_in_range(term@);
            }
            let (_, _, out_var) = cs.multiply(prev_lc, term);
            prev_lc = LinearCombination::from(out_var);
        }
        i += 1;
    }
    cs.constrain(prev_lc - prod_y);
}

/// The variables that stand for `k` inputs.
pub open spec fn input_variables(k: nat) -> Seq<Variable> {
    Seq::new(k, |i: int| Variable::Committed(i as usize))
}

/// What a prover knows when it has inputs and nothing else.
pub open spec fn input_witness(v: Seq<int>, v_blinding: int) -> Witness {
    Witness {
        a_L: Seq::empty(),
        a_R: Seq::empty(),
        a_O: Seq::empty(),
        v,
        v_blinding,
        constraints: Seq::empty(),
    }
}

/// The transcript once the commitment `v` to `k` inputs has been added.
pub open spec fn inputs_log<G: Group>(log: Log, k: nat, v: G::Encoding) -> Log {
    let named = append_text(log, "dom-sep"@, "ShuffleProof"@);
    let sized = append_scalar(named, "k"@, md(k as int, G::Scalar::modulus()));
    let system = append_text(sized, "dom-sep"@, "r1cs v1"@);
    append_number(append(system, "V"@, G::bytes(v)), "m"@, k as int)
}

/// The challenge of a shuffle with the commitment `v` to `k` inputs.
pub open spec fn shuffle_challenge<G: Group>(log: Log, k: nat, v: G::Encoding) -> int {
    challenge::<G::Scalar>(inputs_log::<G>(log, k, v), "k-scalar shuffle challenge"@)
}

/// The transcript at the start of the proof.
pub open spec fn shuffle_log<G: Group>(log: Log, k: nat, v: G::Encoding) -> Log {
    challenged(inputs_log::<G>(log, k, v), "k-scalar shuffle challenge"@)
}

/// What the prover of a shuffle of `y` into the inputs `x` knows, where `v` is
/// the commitment to the inputs.
pub open spec fn prover_witness<G: Group>(
    log: Log,
    y: Seq<int>,
    x: Seq<int>,
    v_blinding: int,
    v: G::Encoding,
    k_original: int,
) -> Witness {
    shuffle_witness(
        input_witness(x, v_blinding),
        0,
        input_variables(x.len()),
        y,
        shuffle_challenge::<G>(log, x.len(), v),
        k_original,
        G::Scalar::modulus(),
    )
}

/// The constraints of a shuffle of `y` into the inputs that `v` is the
/// commitment to.
pub open spec fn verifier_constraints<G: Group>(log: Log, y: Seq<int>, v: G::Encoding, k_original: int) -> Seq<
    Terms,
> {
    shuffle_constraints(
        Seq::empty(),
        0,
        input_variables(y.len()),
        y,
        shuffle_challenge::<G>(log, y.len(), v),
        k_original,
        G::Scalar::modulus(),
    )
}

/// What a shuffle of `k` scalars needs to be proved.
pub open spec fn can_shuffle<G: Group>(
    bp_gens: BulletproofGens<G>,
    k: int,
    outputs: int,
    c1_len: int,
    c2_len: int,
    k_fold: int,
) -> bool {
    &&& bp_gens.wf()
    &&& bp_gens.party_capacity >= 1
    &&& outputs == k
    &&& c1_len <= k
    &&& c1_len <= bp_gens.gens_capacity
    &&& bp_gens.gens_capacity >= k ==> {
        &&& c1_len == c2_len
        &&& k_fold > 1
        &&& 2 * k_fold <= usize::MAX
        &&& k + k_fold <= usize::MAX
    }
}

/// With the random scalars `b`, `p` is what an honest prover sends of the
/// shuffle of `input` into `output`.
pub open spec fn shuffle_proved_with<G: Group>(
    p: R1CSProof<G>,
    v: G::Encoding,
    input: Seq<int>,
    output: Seq<int>,
    v_blinding: int,
    b: Blindings,
    gens: GensView,
    ct: Ciphertexts,
    log: Log,
    k_fold: int,
    rounds: int,
) -> bool {
    let k_original = ct.c1.len() as int;
    let w = prover_witness::<G>(log, input, output, v_blinding, v, k_original);
    &&& b.s_L.len() == gates(k_original, input.len() as int)
    &&& b.s_R.len() == b.s_L.len()
    &&& b.s_L_prime.len() == k_original
    &&& honest(p, w, b, gens, ct, shuffle_log::<G>(log, output.len(), v), k_fold, rounds)
}

/// For some random scalars, `p` is what an honest prover sends of the shuffle
/// of `input` into `output`.
pub open spec fn shuffle_proved<G: Group>(
    p: R1CSProof<G>,
    v: G::Encoding,
    input: Seq<int>,
    output: Seq<int>,
    v_blinding: int,
    gens: GensView,
    ct: Ciphertexts,
    log: Log,
    k_fold: int,
    rounds: int,
) -> bool {
    exists|b: Blindings| #[trigger]
        shuffle_proved_with(p, v, input, output, v_blinding, b, gens, ct, log, k_fold, rounds)
}

/// What a proof of a shuffle of `k` scalars needs to be verified.
pub open spec fn can_check<G: Group>(
    bp_gens: BulletproofGens<G>,
    p: R1CSProof<G>,
    k: int,
    c1_len: int,
    c2_len: int,
    c_len: int,
) -> bool {
    &&& k > 0
    &&& c1_len <= k
    &&& bp_gens.gens_capacity >= k ==> {
        &&& bp_gens.wf()
        &&& bp_gens.party_capacity >= 1
        &&& p.shaped()
        &&& k + p.ipp_proof.k <= usize::MAX
        &&& k + p.ecp_batched.k <= usize::MAX
        &&& c1_len <= c2_len
        &&& c_len >= 2
    }
}

/// The verifier of a shuffle accepts the proof when it draws the weight `r`.
pub open spec fn shuffle_accepts<G: Group>(
    p: R1CSProof<G>,
    v: G::Encoding,
    y: Seq<int>,
    gens: GensView,
    st: Statement,
    log: Log,
    r: int,
) -> bool {
    let k_original = st.c1.len() as int;
    accepts(
        p,
        v,
        verifier_constraints::<G>(log, y, v, k_original),
        gates(k_original, y.len() as int) as int,
        y.len() as int,
        gens,
        st,
        shuffle_log::<G>(log, y.len(), v),
        r,
    )
}

/// Appends what a shuffle of `k` scalars starts with.
fn begin<G: Group>(transcript: &mut Transcript, k: usize)
    ensures
        transcript_log(*final(transcript)) == append_scalar(
            append_text(transcript_log(*old(transcript)), "dom-sep"@, "ShuffleProof"@),
            "k"@,
            md(k as int, G::Scalar::modulus()),
        ),
{
    proof {
        reveal_strlit("ShuffleProof");
        is_ascii_chars_encode_utf8("ShuffleProof"@);
    }
    commit_text(transcript, "dom-sep", "ShuffleProof");
    let size = G::Scalar::from_u64(k as u64);
    <Transcript as TranscriptProtocol<G>>::commit_scalar(transcript, "k", &size);
}

/// Sets up the prover of a shuffle of `input` into `output`, of which the
/// first `committed` are committed to.
pub(crate) fn set_up_prover<'a, 'b, G: Group>(
    pc_gens: &'b PedersenGens<G>,
    bp_gens: &'b BulletproofGens<G>,
    transcript: &'a mut Transcript,
    input: &[G::Scalar],
    output: &[G::Scalar],
    v_blinding: G::Scalar,
    committed: usize,
    k_original: usize,
) -> (r: (ProverCS<'a, 'b, G>, G::Encoding))
    requires
        input@.len() == output@.len(),
        input@.len() > 0,
        bp_gens.G_vec@.len() > 0,
        committed <= output@.len(),
        committed <= bp_gens.G_vec@[0]@.len(),
    ensures
        r.0.wf(),
        r.0.bp_gens == bp_gens,
        r.0.pc_gens == pc_gens,
        r.0.witness() == prover_witness::<G>(
            transcript_log(*old(transcript)),
            values(input@),
            values(output@),
            v_blinding.value(),
            r.1,
            k_original as int,
        ),
        r.0.secrets.a_L@.len() == gates(k_original as int, input@.len() as int),
        encodes::<G>(
            r.1,
            md(
                v_blinding.value() * G::index(pc_gens.B_blinding) + dot(
                    values(output@).take(committed as int),
                    indices::<G>(bp_gens.G_vec@[0]@),
                ),
                G::Scalar::modulus(),
            ),
        ),
        transcript_log(*r.0.transcript) == shuffle_log::<G>(
            transcript_log(*old(transcript)),
            input@.len(),
            r.1,
        ),
{
    let ghost log0 = transcript_log(*transcript);
    let k: usize = input.len();
    begin::<G>(transcript, k);
    let mut p = Prover::new(bp_gens, pc_gens, transcript);
    let (commitment, vars) = p.commit_inputs(output, v_blinding, committed);
    let mut cs = p.finalize_inputs();
    proof {
        assert(values(output@.take(committed as int)) =~= values(output@).take(committed as int));
        assert(vars@ =~= input_variables(k as nat));
        let w = input_witness(values(output@), v_blinding.value());
        assert(cs.secrets.v@ =~= output@);
        assert(cs.witness().a_L =~= w.a_L);
        assert(cs.witness().a_R =~= w.a_R);
        assert(cs.witness().a_O =~= w.a_O);
        assert(cs.witness().constraints =~= w.constraints);
        assert(cs.log() == inputs_log::<G>(log0, k as nat, commitment));
    }
    fill_cs::<G, ProverCS<'a, 'b, G>>(&mut cs, vars.as_slice(), input, k_original);
    (cs, commitment)
}

/// Sets up the verifier of a shuffle of `input` into what `commitment` is the
/// commitment to.
pub(crate) fn set_up_verifier<'a, 'b, G: Group>(
    pc_gens: &'b PedersenGens<G>,
    bp_gens: &'b BulletproofGens<G>,
    transcript: &'a mut Transcript,
    input: &[G::Scalar],
    commitment: G::Encoding,
    k_original: usize,
) -> (r: VerifierCS<'a, 'b, G>)
    requires
        input@.len() > 0,
        G::bytes(commitment).len() <= u32::MAX,
    ensures
        r.bp_gens == bp_gens,
        r.pc_gens == pc_gens,
        r.V@ == seq![commitment],
        r.num_inputs == input@.len(),
        r.num_vars == gates(k_original as int, input@.len() as int),
        r.constraints() == verifier_constraints::<G>(
            transcript_log(*old(transcript)),
            values(input@),
            commitment,
            k_original as int,
        ),
        transcript_log(*r.transcript) == shuffle_log::<G>(
            transcript_log(*old(transcript)),
            input@.len(),
            commitment,
        ),
{
    let ghost log0 = transcript_log(*transcript);
    let k: usize = input.len();
    begin::<G>(transcript, k);
    let mut v = Verifier::new(bp_gens, pc_gens, transcript);
    let vars = v.commit_inputs(commitment, k, k);
    let mut cs = v.finalize_inputs();
    proof {
        assert(vars@ =~= input_variables(k as nat));
        assert(cs.V@ =~= seq![commitment]);
        assert(cs.constraints() =~= Seq::<Terms>::empty());
        assert(cs.log() == inputs_log::<G>(log0, k as nat, commitment));
    }
    fill_cs::<G, VerifierCS<'a, 'b, G>>(&mut cs, vars.as_slice(), input, k_original);
    cs
}

} // verus!
