//! The verifier's side of the proof.

use merlin::Transcript;
use vstd::prelude::*;
use crate::ecp::EcpScalars;
use crate::errors::R1CSError;
use crate::folding::lemma_dot_push;
use crate::generators::{BulletproofGens, GensView, PedersenGens, gens_view};
use crate::group::{Field, Group, indices, values};
use crate::ipa::IpaScalars;
use crate::modular::{
    eqm, group_mod, lemma_eqm_add, lemma_eqm_mul, lemma_eqm_sum, lemma_md_range, lemma_md_small, md,
    sub_mod,
};
use crate::r1cs::constraint_system::{ConstraintSystem, all_terms, constraints_in_range, flatten};
use crate::r1cs::equations::{
    Coefficients, Flattened, Opened, Statement, accepts, batched_equation, coefficients, delta, element,
    flattened, is_element, lemma_collect, single_terms, sum_folded, sum_input, sum_left_output, sum_right,
};
use crate::r1cs::honest::{weight_constant, weights_input, weights_left, weights_output, weights_right};
use crate::r1cs::linear_combination::{LinearCombination, Terms, Variable};
use crate::r1cs::prove::{extend_msm, lemma_dot_prefix, take_prefix};
use crate::r1cs::r1cs_proof::{Challenges, R1CSProof};
use crate::r1cs::witness::Witness;
use crate::sums::{at, dot, lemma_sum_add, lemma_sum_ext, lemma_sum_scale, sum};
use crate::transcript::{Log, TranscriptProtocol, append, append_number, append_text, transcript_log};
use crate::util::{exp_vec, inner_product};

verus! {

broadcast use group_mod;

/// Collects the commitments to the inputs of a constraint system before its
/// constraints are set.
pub struct Verifier<'a, 'b, G: Group> {
    /// Number of inputs so far.
    pub m: u64,
    pub cs: VerifierCS<'a, 'b, G>,
}

/// A constraint system in the verifier's role: no variable has a value.
pub struct VerifierCS<'a, 'b, G: Group> {
    pub bp_gens: &'b BulletproofGens<G>,
    pub pc_gens: &'b PedersenGens<G>,
    pub transcript: &'a mut Transcript,
    /// The constraints accumulated so far.
    pub constraints: Vec<LinearCombination<G::Scalar>>,
    /// The number of multipliers.
    pub num_vars: usize,
    /// The commitments to the inputs.
    pub V: Vec<G::Encoding>,
    /// The number of inputs that the proof is about.
    pub num_inputs: usize,
}

impl<'a, 'b, G: Group> VerifierCS<'a, 'b, G> {
    /// Uses a challenge, `z`, to flatten the constraints in the constraint
    /// system into vectors used for verification.
    ///
    /// This has the same logic as the prover's but also computes the constant
    /// terms, which the prover skips.
    fn flattened_constraints(&self, z: &G::Scalar) -> (r: (
        Vec<G::Scalar>,
        Vec<G::Scalar>,
        Vec<G::Scalar>,
        Vec<G::Scalar>,
        G::Scalar,
    ))
        requires
            constraints_in_range(
                all_terms(self.constraints@),
                self.num_vars as int,
                self.num_inputs as int,
            ),
        ensures
            ({
                let cs = all_terms(self.constraints@);
                let n = self.num_vars as int;
                let q = G::Scalar::modulus();
                &&& values(r.0@) == weights_left(cs, n, z.value(), q)
                &&& values(r.1@) == weights_right(cs, n, z.value(), q)
                &&& values(r.2@) == weights_output(cs, n, z.value(), q)
                &&& values(r.3@) == weights_input(cs, self.num_inputs as int, z.value(), q)
                &&& r.4.value() == weight_constant(cs, z.value(), q)
            }),
    {
        let n: usize = self.num_vars;
        let m: usize = self.num_inputs;
        let (wL, wR, wO, wV, wc) = flatten(&self.constraints, n, m, z);
        proof {
            let cs = all_terms(self.constraints@);
            let q = G::Scalar::modulus();
            assert(values(wL@) =~= weights_left(cs, n as int, z.value(), q));
            assert(values(wR@) =~= weights_right(cs, n as int, z.value(), q));
            assert(values(wO@) =~= weights_output(cs, n as int, z.value(), q));
            assert(values(wV@) =~= weights_input(cs, m as int, z.value(), q));
        }
        (wL, wR, wO, wV, wc)
    }
}

impl<'a, 'b, G: Group> ConstraintSystem<G> for VerifierCS<'a, 'b, G> {
    type Setting = (&'b BulletproofGens<G>, &'b PedersenGens<G>, Vec<G::Encoding>, usize);

    open spec fn setting(&self) -> Self::Setting {
        (self.bp_gens, self.pc_gens, self.V, self.num_inputs)
    }

    open spec fn constraints(&self) -> Seq<Terms> {
        all_terms(self.constraints@)
    }

    open spec fn multipliers(&self) -> nat {
        self.num_vars as nat
    }

    open spec fn inputs(&self) -> nat {
        self.num_inputs as nat
    }

    open spec fn assigned(&self) -> Option<Witness> {
        None
    }

    open spec fn wf(&self) -> bool {
        true
    }

    open spec fn log(&self) -> Log {
        transcript_log(*self.transcript)
    }

    open spec fn knows(&self, t: Terms) -> bool {
        true
    }

    proof fn knows_in_range(&self, t: Terms) {
    }

    fn multiply(
        &mut self,
        left: LinearCombination<G::Scalar>,
        right: LinearCombination<G::Scalar>,
    ) -> (r: (Variable, Variable, Variable))
        ensures
            *final(final(self).transcript) == *final(old(self).transcript),
    {
        let var: usize = self.num_vars;
        self.num_vars = self.num_vars + 1;
        let l_var = Variable::MultiplierLeft(var);
        let r_var = Variable::MultiplierRight(var);
        let o_var = Variable::MultiplierOutput(var);
        let mut left = left;
        let mut right = right;
        let ghost (left0, right0) = (left@, right@);
        left.terms.push((l_var, G::Scalar::one().negate()));
        right.terms.push((r_var, G::Scalar::one().negate()));
        proof {
            let minus_one = sub_mod(0, 1, G::Scalar::modulus());
            assert(left@ =~= left0.push((l_var, minus_one)));
            assert(right@ =~= right0.push((r_var, minus_one)));
        }
        self.constrain(left);
        self.constrain(right);
        (l_var, r_var, o_var)
    }

    fn allocate<F: FnOnce() -> Result<(G::Scalar, G::Scalar, G::Scalar), R1CSError>>(
        &mut self,
        _assign_fn: F,
    ) -> (r: Result<(Variable, Variable, Variable), R1CSError>)
        ensures
            r is Ok,
            *final(final(self).transcript) == *final(old(self).transcript),
    {
        let var: usize = self.num_vars;
        self.num_vars = self.num_vars + 1;
        Ok((
            Variable::MultiplierLeft(var),
            Variable::MultiplierRight(var),
            Variable::MultiplierOutput(var),
        ))
    }

    fn constrain(&mut self, lc: LinearCombination<G::Scalar>)
        ensures
            *final(final(self).transcript) == *final(old(self).transcript),
    {
        let ghost cs0 = all_terms(self.constraints@);
        self.constraints.push(lc);
        assert(all_terms(self.constraints@) =~= cs0.push(lc@));
    }

    fn challenge_scalar(&mut self, label: &'static str) -> (r: G::Scalar)
        ensures
            *final(final(self).transcript) == *final(old(self).transcript),
    {
        <Transcript as TranscriptProtocol<G>>::challenge_scalar(self.transcript, label)
    }
}

impl<'a, 'b, G: Group> Verifier<'a, 'b, G> {
    /// Constructs a new constraint system that does not have any inputs yet.
    pub fn new(
        bp_gens: &'b BulletproofGens<G>,
        pc_gens: &'b PedersenGens<G>,
        transcript: &'a mut Transcript,
    ) -> (r: Self)
        ensures
            r.m == 0,
            r.cs.bp_gens == bp_gens,
            r.cs.pc_gens == pc_gens,
            r.cs.num_vars == 0,
            r.cs.num_inputs == 0,
            r.cs.V@.len() == 0,
            r.cs.constraints@.len() == 0,
            transcript_log(*r.cs.transcript) == append_text(
                transcript_log(*old(transcript)),
                "dom-sep"@,
                "r1cs v1"@,
            ),
            *final(r.cs.transcript) == *final(transcript),
    {
        <Transcript as TranscriptProtocol<G>>::r1cs_domain_sep(transcript);
        Verifier {
            m: 0,
            cs: VerifierCS {
                bp_gens,
                pc_gens,
                transcript,
                constraints: Vec::new(),
                num_vars: 0,
                V: Vec::new(),
                num_inputs: 0,
            },
        }
    }

    /// Adds the commitment to `k` inputs and sets the number of inputs that
    /// the proof is about.
    ///
    /// Returns the variables that stand for the inputs.
    pub(crate) fn commit_inputs(&mut self, commitment: G::Encoding, k: usize, num_inputs: usize) -> (r: Vec<Variable>)
        requires
            G::bytes(commitment).len() <= u32::MAX,
            old(self).m + k <= usize::MAX,
        ensures
            final(self).m == old(self).m + k,
            final(self).cs.num_inputs == num_inputs,
            final(self).cs.V@ == old(self).cs.V@.push(commitment),
            final(self).cs.num_vars == old(self).cs.num_vars,
            final(self).cs.constraints == old(self).cs.constraints,
            final(self).cs.bp_gens == old(self).cs.bp_gens,
            final(self).cs.pc_gens == old(self).cs.pc_gens,
            r@ == Seq::new(k as nat, |i: int| Variable::Committed((old(self).m + i) as usize)),
            transcript_log(*final(self).cs.transcript) == append(
                transcript_log(*old(self).cs.transcript),
                "V"@,
                G::bytes(commitment),
            ),
            *final(final(self).cs.transcript) == *final(old(self).cs.transcript),
    {
        let start: usize = self.m as usize;
        self.m = self.m + k as u64;
        self.cs.num_inputs = num_inputs;
        <Transcript as TranscriptProtocol<G>>::commit_point(self.cs.transcript, "V", &commitment);
        self.cs.V.push(commitment);
        let mut vars: Vec<Variable> = Vec::new();
        let mut i: usize = 0;
        while i < k
            invariant
                i <= k,
                start + k <= usize::MAX,
                vars@.len() == i,
                forall|j: int| 0 <= j < i ==> #[trigger] vars@[j] == Variable::Committed((start + j) as usize),
            decreases k - i,
        {
            vars.push(Variable::Committed(start + i));
            i += 1;
        }
        assert(vars@ =~= Seq::new(k as nat, |i: int| Variable::Committed((old(self).m + i) as usize)));
        vars
    }

    /// Consumes the verifier and adds its commitments to the transcript.
    /// Returns a constraint system for adding constraints.
    pub fn finalize_inputs(self) -> (r: VerifierCS<'a, 'b, G>)
        ensures
            r.constraints == self.cs.constraints,
            r.num_vars == self.cs.num_vars,
            r.setting() == self.cs.setting(),
            transcript_log(*r.transcript) == append_number(
                transcript_log(*old(self.cs.transcript)),
                "m"@,
                self.m as int,
            ),
            *final(r.transcript) == *final(self.cs.transcript),
    {
        <Transcript as TranscriptProtocol<G>>::commit_u64(self.cs.transcript, "m", self.m);
        self.cs
    }
}

// ---------------------------------------------------------------------------
// Decoding
// ---------------------------------------------------------------------------

/// Decodes the first `width` points of every round.
fn decode_rounds<G: Group>(rounds: &Vec<Vec<G::Encoding>>, width: usize) -> (r: Option<Vec<G::Point>>)
    requires
        forall|i: int| 0 <= i < rounds@.len() ==> (#[trigger] rounds@[i])@.len() >= width,
    ensures
        r is Some <==> (forall|i: int, x: int|
            0 <= i < rounds@.len() && 0 <= x < width ==> is_element::<G>(#[trigger] rounds@[i]@[x])),
        r matches Some(points) ==> indices::<G>(points@) == Seq::new(
            (rounds@.len() * width) as nat,
            |t: int| element::<G>(rounds@[t / width as int]@[t % width as int]),
        ),
{
    let mut out: Vec<G::Point> = Vec::new();
    let mut i: usize = 0;
    while i < rounds.len()
        invariant
            i <= rounds@.len(),
            forall|j: int| 0 <= j < rounds@.len() ==> (#[trigger] rounds@[j])@.len() >= width,
            forall|j: int, x: int|
                0 <= j < i && 0 <= x < width ==> is_element::<G>(#[trigger] rounds@[j]@[x]),
            out@.len() == i * width,
            forall|t: int|
                0 <= t < out@.len() ==> G::index(#[trigger] out@[t]) == element::<G>(
                    rounds@[t / width as int]@[t % width as int],
                ),
        decreases rounds@.len() - i,
    {
        assert(rounds@[i as int]@.len() >= width);
        let mut x: usize = 0;
        while x < width
            invariant
                i < rounds@.len(),
                x <= width,
                rounds@[i as int]@.len() >= width,
                forall|j: int, y: int|
                    0 <= j < i && 0 <= y < width ==> is_element::<G>(#[trigger] rounds@[j]@[y]),
                forall|y: int| 0 <= y < x ==> is_element::<G>(#[trigger] rounds@[i as int]@[y]),
                out@.len() == i * width + x,
                forall|t: int|
                    0 <= t < out@.len() ==> G::index(#[trigger] out@[t]) == element::<G>(
                        rounds@[t / width as int]@[t % width as int],
                    ),
            decreases width - x,
        {
            match G::decode(&rounds[i][x]) {
                Some(p) => {
                    out.push(p);
                    proof {
                        vstd::arithmetic::div_mod::lemma_fundamental_div_mod_converse(
                            i * width + x,
                            width as int,
                            i as int,
                            x as int,
                        );
                    }
                },
                None => {
                    assert(!is_element::<G>(rounds@[i as int]@[x as int]));
                    return None;
                },
            }
            x += 1;
        }
        proof {
            assert((i + 1) * width == i * width + width) by (nonlinear_arith);
        }
        i += 1;
    }
    assert(indices::<G>(out@) =~= Seq::new(
        (rounds@.len() * width) as nat,
        |t: int| element::<G>(rounds@[t / width as int]@[t % width as int]),
    ));
    Some(out)
}

/// Decodes one side of the pairs of every round.
fn decode_pairs<G: Group>(rounds: &Vec<Vec<[G::Encoding; 2]>>, width: usize, side: usize) -> (r: Option<
    Vec<G::Point>,
>)
    requires
        side < 2,
        forall|i: int| 0 <= i < rounds@.len() ==> (#[trigger] rounds@[i])@.len() == width,
    ensures
        r is Some <==> (forall|i: int, x: int|
            0 <= i < rounds@.len() && 0 <= x < width ==> is_element::<G>(
                (#[trigger] rounds@[i]@[x])@[side as int],
            )),
        r matches Some(points) ==> indices::<G>(points@) == Seq::new(
            (rounds@.len() * width) as nat,
            |t: int| element::<G>(rounds@[t / width as int]@[t % width as int]@[side as int]),
        ),
{
    let mut out: Vec<G::Point> = Vec::new();
    let mut i: usize = 0;
    while i < rounds.len()
        invariant
            side < 2,
            i <= rounds@.len(),
            forall|j: int| 0 <= j < rounds@.len() ==> (#[trigger] rounds@[j])@.len() == width,
            forall|j: int, x: int|
                0 <= j < i && 0 <= x < width ==> is_element::<G>((#[trigger] rounds@[j]@[x])@[side as int]),
            out@.len() == i * width,
            forall|t: int|
                0 <= t < out@.len() ==> G::index(#[trigger] out@[t]) == element::<G>(
                    rounds@[t / width as int]@[t % width as int]@[side as int],
                ),
        decreases rounds@.len() - i,
    {
        assert(rounds@[i as int]@.len() == width);
        let mut x: usize = 0;
        while x < width
            invariant
                side < 2,
                i < rounds@.len(),
                x <= width,
                rounds@[i as int]@.len() == width,
                forall|j: int, y: int|
                    0 <= j < i && 0 <= y < width ==> is_element::<G>(
                        (#[trigger] rounds@[j]@[y])@[side as int],
                    ),
                forall|y: int|
                    0 <= y < x ==> is_element::<G>((#[trigger] rounds@[i as int]@[y])@[side as int]),
                out@.len() == i * width + x,
                forall|t: int|
                    0 <= t < out@.len() ==> G::index(#[trigger] out@[t]) == element::<G>(
                        rounds@[t / width as int]@[t % width as int]@[side as int],
                    ),
            decreases width - x,
        {
            let pair = &rounds[i][x];
            match G::decode(&pair[side]) {
                Some(p) => {
                    out.push(p);
                    proof {
                        vstd::arithmetic::div_mod::lemma_fundamental_div_mod_converse(
                            i * width + x,
                            width as int,
                            i as int,
                            x as int,
                        );
                    }
                },
                None => {
                    assert(!is_element::<G>(rounds@[i as int]@[x as int]@[side as int]));
                    return None;
                },
            }
            x += 1;
        }
        proof {
            assert((i + 1) * width == i * width + width) by (nonlinear_arith);
        }
        i += 1;
    }
    assert(indices::<G>(out@) =~= Seq::new(
        (rounds@.len() * width) as nat,
        |t: int| element::<G>(rounds@[t / width as int]@[t % width as int]@[side as int]),
    ));
    Some(out)
}

// ---------------------------------------------------------------------------
// Coefficients
// ---------------------------------------------------------------------------

/// The coefficients of the single group elements.
struct CoefficientScalars<F: Field> {
    a_i: F,
    a_o: F,
    s: F,
    v: F,
    s_prime: F,
    b: F,
    b_blinding: F,
    f: F,
    t_1_prime: F,
    t_2_input: F,
    t_1: F,
    t_2: F,
    t_3: F,
    t_4: F,
    t_5: F,
    t_6: F,
    s1_prime: F,
    s2_prime: F,
    c_0: F,
    c_1: F,
    r3: F,
    r3_batch: F,
    r4: F,
}

impl<F: Field> CoefficientScalars<F> {
    /// The scalars are those of `e`.
    spec fn are(self, e: Coefficients) -> bool {
        let q = F::modulus();
        &&& self.a_i.value() == md(e.a_i, q)
        &&& self.a_o.value() == md(e.a_o, q)
        &&& self.s.value() == md(e.s, q)
        &&& self.v.value() == md(e.v, q)
        &&& self.s_prime.value() == md(e.s_prime, q)
        &&& self.b.value() == md(e.b, q)
        &&& self.b_blinding.value() == md(e.b_blinding, q)
        &&& self.f.value() == md(e.f, q)
        &&& self.t_1_prime.value() == md(e.t_1_prime, q)
        &&& self.t_2_input.value() == md(e.t_2_input, q)
        &&& self.t_1.value() == md(e.t_1, q)
        &&& self.t_2.value() == md(e.t_2, q)
        &&& self.t_3.value() == md(e.t_3, q)
        &&& self.t_4.value() == md(e.t_4, q)
        &&& self.t_5.value() == md(e.t_5, q)
        &&& self.t_6.value() == md(e.t_6, q)
        &&& self.s1_prime.value() == md(e.s1_prime, q)
        &&& self.s2_prime.value() == md(e.s2_prime, q)
        &&& self.c_0.value() == md(e.c_0, q)
        &&& self.c_1.value() == md(e.c_1, q)
    }
}

/// The challenges, as scalars.
struct ChallengeScalars<F: Field> {
    y: F,
    z: F,
    x: F,
    x_prime: F,
    x_ipp: F,
    w_agg: F,
    batch: F,
}

impl<F: Field> ChallengeScalars<F> {
    spec fn view(self) -> Challenges {
        Challenges {
            y: self.y.value(),
            z: self.z.value(),
            x: self.x.value(),
            x_prime: self.x_prime.value(),
            x_ipp: self.x_ipp.value(),
            w_agg: self.w_agg.value(),
            batch: self.batch.value(),
        }
    }
}

/// Computes the coefficients of the single group elements.
fn single_coefficients<G: Group>(
    proof: &R1CSProof<G>,
    c: &ChallengeScalars<G::Scalar>,
    wc_delta: G::Scalar,
    s_P: G::Scalar,
    s_Q: G::Scalar,
    s_E: G::Scalar,
    r: G::Scalar,
    Ghost(wcd): Ghost<int>,
) -> (k: CoefficientScalars<G::Scalar>)
    requires
        wc_delta.value() == md(wcd, G::Scalar::modulus()),
    ensures
        ({
            let q = G::Scalar::modulus();
            let rv = r.value();
            let e = coefficients(proof.responses(), c@, wcd, s_P.value(), s_Q.value(), s_E.value(), rv);
            &&& k.are(e)
            &&& k.r3.value() == md(rv * rv * rv, q)
            &&& k.r3_batch.value() == md((rv * rv * rv) * c.batch.value(), q)
            &&& k.r4.value() == md(rv * rv * rv * rv, q)
        }),
{
    let ghost q = G::Scalar::modulus();
    proof {
        G::Scalar::modulus_range();
        lemma_md_small(0, q);
        s_P.value_range();
        s_Q.value_range();
        s_E.value_range();
        r.value_range();
        c.x.value_range();
        c.x_prime.value_range();
        c.x_ipp.value_range();
        c.w_agg.value_range();
        c.batch.value_range();
        proof.t_x.value_range();
        proof.t_x_blinding.value_range();
        proof.e_blinding.value_range();
        proof.tc_x.value_range();
        proof.tc_x_blinding.value_range();
        proof.ec_blinding.value_range();
        proof.t_cross.value_range();
        proof.r_blinding.value_range();
    }
    let x = c.x;
    let x_prime = c.x_prime;
    let x_ipp = c.x_ipp;
    let w_agg = c.w_agg;
    let chall_batched_ecp = c.batch;
    let xx = x.times(x);
    let rxx = r.times(xx);
    let xxx = x.times(xx);
    let r2 = r.times(r);
    let r3 = r2.times(r);
    let r4 = r3.times(r);
    let neg_s_E = s_E.negate();
    let neg_x = x.negate();
    let neg_x_ipp = x_ipp.negate();
    let expected_ip = proof.t_x.plus(x_ipp.times(proof.t_cross)).plus(x_ipp.times(x_ipp).times(proof.tc_x));
    let B_scalar = w_agg.times(s_Q).minus(w_agg.times(expected_ip).times(s_P)).plus(
        r.times(xx.times(wc_delta).minus(proof.t_x)),
    ).minus(r2.times(proof.tc_x));
    let B_blinding_scalar = x_ipp.times(proof.ec_blinding).times(s_P).plus(proof.e_blinding.times(s_P)).minus(
        r2.times(proof.tc_x_blinding),
    ).minus(r.times(proof.t_x_blinding));
    let s_B_checkS = s_E.times(r3).times(proof.r_blinding);
    let s_B_blinding_checkS = s_E.times(r4).times(proof.ec_blinding);
    CoefficientScalars {
        a_i: neg_x.times(s_P),
        a_o: neg_x.times(x).times(s_P),
        s: neg_x.times(x).times(x).times(s_P),
        v: neg_x_ipp.times(s_P).plus(r4.times(neg_s_E)),
        s_prime: neg_x_ipp.times(s_P).times(x_prime).plus(r4.times(x_prime).times(neg_s_E)),
        b: B_scalar.plus(s_B_checkS),
        b_blinding: B_blinding_scalar.plus(s_B_blinding_checkS),
        f: s_E.times(r3).times(chall_batched_ecp).times(proof.r_blinding),
        t_1_prime: r2.times(x_prime),
        t_2_input: r2,
        t_1: r.times(x),
        t_2: rxx,
        t_3: rxx.times(x),
        t_4: rxx.times(xx),
        t_5: rxx.times(xxx),
        t_6: rxx.times(xx).times(xx),
        s1_prime: r3.times(x_prime).times(neg_s_E),
        s2_prime: r3.times(chall_batched_ecp).times(x_prime).times(neg_s_E),
        c_0: r3.times(neg_s_E),
        c_1: r3.times(chall_batched_ecp).times(neg_s_E),
        r3,
        r3_batch: r3.times(chall_batched_ecp),
        r4,
    }
}

/// The weights of the right inputs times powers of the inverse of `y`, with
/// zeros up to the number of inputs.
fn right_weights<F: Field>(wR: &Vec<F>, y_inv: &Vec<F>) -> (r: Vec<F>)
    requires
        wR@.len() <= y_inv@.len(),
    ensures
        r@.len() == y_inv@.len(),
        forall|i: int|
            0 <= i < r@.len() ==> (#[trigger] r@[i]).value() == md(
                values(y_inv@)[i] * at(values(wR@), i),
                F::modulus(),
            ),
{
    let mut out: Vec<F> = Vec::new();
    proof {
        F::modulus_range();
        lemma_md_small(0, F::modulus());
    }
    let mut i: usize = 0;
    while i < y_inv.len()
        invariant
            i <= y_inv@.len(),
            F::modulus() > 1,
            md(0, F::modulus()) == 0,
            out@.len() == i,
            forall|j: int|
                0 <= j < i ==> (#[trigger] out@[j]).value() == md(
                    values(y_inv@)[j] * at(values(wR@), j),
                    F::modulus(),
                ),
        decreases y_inv@.len() - i,
    {
        if i < wR.len() {
            proof {
                wR@[i as int].value_range();
                y_inv@[i as int].value_range();
            }
            out.push(y_inv[i].times(wR[i]));
        } else {
            proof {
                let y = values(y_inv@)[i as int];
                assert(y * 0 == 0);
            }
            out.push(F::zero());
        }
        i += 1;
    }
    out
}

/// `s` with zeros up to the length `n`.
fn zero_padded<F: Field>(s: &Vec<F>, n: usize) -> (r: Vec<F>)
    requires
        s@.len() <= n,
    ensures
        r@.len() == n,
        forall|i: int| 0 <= i < n ==> (#[trigger] r@[i]).value() == at(values(s@), i),
{
    let mut out: Vec<F> = Vec::new();
    let mut i: usize = 0;
    while i < n
        invariant
            i <= n,
            out@.len() == i,
            forall|j: int| 0 <= j < i ==> (#[trigger] out@[j]).value() == at(values(s@), j),
        decreases n - i,
    {
        if i < s.len() {
            out.push(s[i]);
        } else {
            out.push(F::zero());
        }
        i += 1;
    }
    out
}

/// The coefficients of the bases `G_i`.
fn g_coefficients<F: Field>(
    s_g: &Vec<F>,
    yneg_wR: &Vec<F>,
    z_s: &Vec<F>,
    x: F,
    s_P: F,
    r4: F,
    Ghost(f): Ghost<Flattened>,
) -> (r: Vec<F>)
    requires
        s_g@.len() == yneg_wR@.len() == z_s@.len() == f.k,
        forall|i: int|
            0 <= i < f.k ==> (#[trigger] yneg_wR@[i]).value() == md(f.yi[i] * at(f.wr, i), F::modulus()),
    ensures
        r@.len() == f.k,
        forall|i: int|
            0 <= i < f.k ==> (#[trigger] r@[i]).value() == md(
                s_g@[i].value() - (x.value() * (f.yi[i] * at(f.wr, i))) * s_P.value() + z_s@[i].value() * r4.value(),
                F::modulus(),
            ),
{
    let mut out: Vec<F> = Vec::new();
    let mut i: usize = 0;
    while i < s_g.len()
        invariant
            i <= s_g@.len() == yneg_wR@.len() == z_s@.len() == f.k,
            forall|i: int|
                0 <= i < f.k ==> (#[trigger] yneg_wR@[i]).value() == md(f.yi[i] * at(f.wr, i), F::modulus()),
            out@.len() == i,
            forall|i: int|
                0 <= i < out@.len() ==> (#[trigger] out@[i]).value() == md(
                    s_g@[i].value() - (x.value() * (f.yi[i] * at(f.wr, i))) * s_P.value() + z_s@[i].value()
                        * r4.value(),
                    F::modulus(),
                ),
        decreases s_g@.len() - i,
    {
        proof {
            F::modulus_range();
            s_g@[i as int].value_range();
            z_s@[i as int].value_range();
            x.value_range();
            s_P.value_range();
            r4.value_range();
        }
        out.push(s_g[i].minus(x.times(yneg_wR[i]).times(s_P)).plus(z_s[i].times(r4)));
        i += 1;
    }
    out
}

/// The coefficients of the bases `H_i`.
fn h_coefficients<F: Field>(
    s_h: &Vec<F>,
    y_inv: &Vec<F>,
    wL: &Vec<F>,
    wO: &Vec<F>,
    wV: &Vec<F>,
    x: F,
    x_ipp: F,
    s_P: F,
) -> (r: Vec<F>)
    requires
        s_h@.len() == y_inv@.len() == wL@.len() == wO@.len() == wV@.len(),
    ensures
        r@.len() == s_h@.len(),
        forall|i: int|
            0 <= i < s_h@.len() ==> (#[trigger] r@[i]).value() == md(
                y_inv@[i].value() * s_h@[i].value() + (y_inv@[i].value() * (x.value() * wL@[i].value()
                    + wO@[i].value()) - 1) * (0 - s_P.value()) + ((y_inv@[i].value() * x_ipp.value()) * (0
                    - s_P.value())) * wV@[i].value(),
                F::modulus(),
            ),
{
    let mut out: Vec<F> = Vec::new();
    proof {
        F::modulus_range();
        lemma_md_small(0, F::modulus());
        lemma_md_small(1, F::modulus());
        s_P.value_range();
    }
    let one = F::one();
    let neg_s_P = s_P.negate();
    let mut i: usize = 0;
    while i < s_h.len()
        invariant
            i <= s_h@.len(),
            s_h@.len() == y_inv@.len() == wL@.len() == wO@.len() == wV@.len(),
            F::modulus() > 1,
            md(1, F::modulus()) == 1,
            one.value() == 1,
            neg_s_P.value() == md(0 - s_P.value(), F::modulus()),
            out@.len() == i,
            forall|i: int|
                0 <= i < out@.len() ==> (#[trigger] out@[i]).value() == md(
                    y_inv@[i].value() * s_h@[i].value() + (y_inv@[i].value() * (x.value() * wL@[i].value()
                        + wO@[i].value()) - 1) * (0 - s_P.value()) + ((y_inv@[i].value() * x_ipp.value()) * (0
                        - s_P.value())) * wV@[i].value(),
                    F::modulus(),
                ),
        decreases s_h@.len() - i,
    {
        proof {
            s_h@[i as int].value_range();
            y_inv@[i as int].value_range();
            wL@[i as int].value_range();
            wO@[i as int].value_range();
            wV@[i as int].value_range();
            x.value_range();
            x_ipp.value_range();
        }
        let term1 = y_inv[i].times(s_h[i]);
        let term2 = y_inv[i].times(x.times(wL[i]).plus(wO[i])).minus(one).times(neg_s_P);
        let term3 = y_inv[i].times(x_ipp).times(neg_s_P).times(wV[i]);
        out.push(term1.plus(term2).plus(term3));
        i += 1;
    }
    out
}

/// The first `n` entries of `v`, each times `c`.
fn scale_prefix<F: Field>(v: &Vec<F>, n: usize, c: F) -> (r: Vec<F>)
    requires
        n <= v@.len(),
    ensures
        r@.len() == n,
        forall|i: int| 0 <= i < n ==> (#[trigger] r@[i]).value() == md(v@[i].value() * c.value(), F::modulus()),
{
    let mut out: Vec<F> = Vec::new();
    let mut i: usize = 0;
    while i < n
        invariant
            i <= n <= v@.len(),
            out@.len() == i,
            forall|j: int|
                0 <= j < i ==> (#[trigger] out@[j]).value() == md(v@[j].value() * c.value(), F::modulus()),
        decreases n - i,
    {
        proof {
            F::modulus_range();
            v@[i as int].value_range();
            c.value_range();
        }
        out.push(v[i].times(c));
        i += 1;
    }
    out
}

/// A scaled vector under some bases.
proof fn lemma_dot_scaled(out: Seq<int>, v: Seq<int>, cv: int, c: int, p: Seq<int>, q: int)
    requires
        q > 1,
        out.len() <= v.len(),
        eqm(cv, c, q),
        forall|i: int| 0 <= i < out.len() ==> #[trigger] out[i] == md(v[i] * cv, q),
    ensures
        eqm(dot(out, p), c * dot(v.take(out.len() as int), p), q),
{
    let n = out.len() as int;
    let f = |i: int| out[i] * p[i];
    let g = |i: int| v.take(n)[i] * p[i];
    assert forall|i: int| 0 <= i < n implies eqm(#[trigger] f(i), c * g(i), q) by {
        lemma_md_range(v[i] * cv, q);
        assert(out[i] == md(v[i] * cv, q));
        lemma_eqm_mul(v[i], v[i], cv, c, q);
        lemma_eqm_mul(out[i], v[i] * c, p[i], p[i], q);
        let (a, b) = (v[i], p[i]);
        assert((a * c) * b == c * (a * b)) by (nonlinear_arith);
    }
    lemma_eqm_sum(n, f, |i: int| c * g(i), q);
    lemma_sum_scale(n, c, g);
}

/// The bases `G_i` under their coefficients.
proof fn lemma_g_part(
    gs: Seq<int>,
    f: Flattened,
    s_g: Seq<int>,
    z: Seq<int>,
    x: int,
    sp: int,
    r4v: int,
    r4: int,
    g: Seq<int>,
    q: int,
)
    requires
        q > 1,
        f.k >= 0,
        gs.len() == f.k,
        s_g.len() == f.k,
        z.len() == f.k,
        eqm(r4v, r4, q),
        forall|i: int|
            0 <= i < f.k ==> #[trigger] gs[i] == md(
                s_g[i] - (x * (f.yi[i] * at(f.wr, i))) * sp + z[i] * r4v,
                q,
            ),
    ensures
        eqm(dot(gs, g), dot(s_g, g) - (x * sp) * sum_right(f, g) + r4 * dot(z, g), q),
{
    let a = |i: int| s_g[i] * g[i];
    let b = |i: int| (f.yi[i] * at(f.wr, i)) * g[i];
    let c = |i: int| z[i] * g[i];
    let cb = 0 - x * sp;
    let sb = |i: int| cb * b(i);
    let sc = |i: int| r4 * c(i);
    let ab = |i: int| a(i) + sb(i);
    let whole = |i: int| gs[i] * g[i];
    assert forall|i: int| 0 <= i < f.k implies eqm(#[trigger] whole(i), ab(i) + sc(i), q) by {
        let (u, w, zi, gi) = (s_g[i], f.yi[i] * at(f.wr, i), z[i], g[i]);
        let e = u - (x * w) * sp + zi * r4v;
        assert(gs[i] == md(e, q));
        lemma_md_range(e, q);
        lemma_eqm_mul(zi, zi, r4v, r4, q);
        lemma_eqm_add(u - (x * w) * sp, u - (x * w) * sp, zi * r4v, zi * r4, q);
        lemma_eqm_mul(gs[i], u - (x * w) * sp + zi * r4, gi, gi, q);
        let (m1, m2) = ((x * w) * sp, zi * r4);
        assert((u - m1 + m2) * gi == u * gi - m1 * gi + m2 * gi) by (nonlinear_arith);
        assert(((x * w) * sp) * gi == (x * sp) * (w * gi)) by (nonlinear_arith);
        let (xs, wg) = (x * sp, w * gi);
        assert((0 - xs) * wg == -(xs * wg)) by (nonlinear_arith);
        assert((zi * r4) * gi == r4 * (zi * gi)) by (nonlinear_arith);
    }
    lemma_eqm_sum(f.k, whole, |i: int| ab(i) + sc(i), q);
    lemma_sum_add(f.k, ab, sc);
    lemma_sum_add(f.k, a, sb);
    lemma_sum_ext(f.k, ab, |i: int| a(i) + sb(i));
    lemma_sum_scale(f.k, cb, b);
    lemma_sum_scale(f.k, r4, c);
    let sw = sum(f.k, b);
    assert((0 - x * sp) * sw == -((x * sp) * sw)) by (nonlinear_arith);
}

/// The bases `H_i` under their coefficients.
proof fn lemma_h_part(
    hs: Seq<int>,
    f: Flattened,
    s_h: Seq<int>,
    x: int,
    xi: int,
    sp: int,
    h: Seq<int>,
    q: int,
)
    requires
        q > 1,
        f.k >= 0,
        hs.len() == f.k,
        forall|i: int|
            0 <= i < f.k ==> #[trigger] hs[i] == md(
                f.yi[i] * s_h[i] + (f.yi[i] * (x * at(f.wl, i) + at(f.wo, i)) - 1) * (0 - sp) + ((f.yi[i] * xi)
                    * (0 - sp)) * f.wv[i],
                q,
            ),
    ensures
        eqm(
            dot(hs, h),
            sum_folded(f, h, s_h) - sp * sum_left_output(f, h, x) - (xi * sp) * sum_input(f, h),
            q,
        ),
{
    let a = |i: int| (f.yi[i] * s_h[i]) * h[i];
    let b = |i: int| (f.yi[i] * (x * at(f.wl, i) + at(f.wo, i)) - 1) * h[i];
    let c = |i: int| (f.yi[i] * f.wv[i]) * h[i];
    let cb = 0 - sp;
    let cc = 0 - xi * sp;
    let sb = |i: int| cb * b(i);
    let sc = |i: int| cc * c(i);
    let ab = |i: int| a(i) + sb(i);
    let whole = |i: int| hs[i] * h[i];
    assert forall|i: int| 0 <= i < f.k implies eqm(#[trigger] whole(i), ab(i) + sc(i), q) by {
        let (u, w, y, v, hi) = (
            f.yi[i] * s_h[i],
            f.yi[i] * (x * at(f.wl, i) + at(f.wo, i)) - 1,
            f.yi[i],
            f.wv[i],
            h[i],
        );
        let e = u + w * (0 - sp) + ((y * xi) * (0 - sp)) * v;
        assert(hs[i] == md(e, q));
        lemma_md_range(e, q);
        lemma_eqm_mul(hs[i], e, hi, hi, q);
        let (m1, m2) = (w * (0 - sp), ((y * xi) * (0 - sp)) * v);
        assert((u + m1 + m2) * hi == u * hi + m1 * hi + m2 * hi) by (nonlinear_arith);
        let ns = 0 - sp;
        assert((w * ns) * hi == ns * (w * hi)) by (nonlinear_arith);
        assert((((y * xi) * ns) * v) * hi == (xi * ns) * ((y * v) * hi)) by (nonlinear_arith);
        assert(xi * (0 - sp) == 0 - xi * sp) by (nonlinear_arith);
    }
    lemma_eqm_sum(f.k, whole, |i: int| ab(i) + sc(i), q);
    lemma_sum_add(f.k, ab, sc);
    lemma_sum_add(f.k, a, sb);
    lemma_sum_ext(f.k, ab, |i: int| a(i) + sb(i));
    lemma_sum_scale(f.k, cb, b);
    lemma_sum_scale(f.k, cc, c);
    let (s1, s2) = (sum(f.k, b), sum(f.k, c));
    assert((0 - sp) * s1 == -(sp * s1)) by (nonlinear_arith);
    assert((0 - xi * sp) * s2 == -((xi * sp) * s2)) by (nonlinear_arith);
}

/// Appends one coefficient and point to a linear combination that is
/// congruent to `acc`.
fn push_term<G: Group>(
    sc: &mut Vec<G::Scalar>,
    pt: &mut Vec<G::Point>,
    s: G::Scalar,
    p: G::Point,
    Ghost(acc): Ghost<int>,
    Ghost(e): Ghost<int>,
)
    requires
        old(sc)@.len() == old(pt)@.len(),
        s.value() == md(e, G::Scalar::modulus()),
        eqm(dot(values(old(sc)@), indices::<G>(old(pt)@)), acc, G::Scalar::modulus()),
    ensures
        final(sc)@.len() == final(pt)@.len(),
        eqm(
            dot(values(final(sc)@), indices::<G>(final(pt)@)),
            acc + e * G::index(p),
            G::Scalar::modulus(),
        ),
{
    let ghost (a, b) = (values(sc@), indices::<G>(pt@));
    sc.push(s);
    pt.push(p);
    proof {
        let q = G::Scalar::modulus();
        G::Scalar::modulus_range();
        let i = G::index(p);
        lemma_dot_push(a, b, s.value(), i);
        assert(values(sc@) =~= a.push(s.value()));
        assert(indices::<G>(pt@) =~= b.push(i));
        lemma_md_range(e, q);
        lemma_eqm_mul(s.value(), e, i, i, q);
        lemma_eqm_add(dot(a, b), acc, s.value() * i, e * i, q);
    }
}

/// Appends a list of coefficients and points to a linear combination that is
/// congruent to `acc`.
fn push_terms<G: Group>(
    sc: &mut Vec<G::Scalar>,
    pt: &mut Vec<G::Point>,
    s: &Vec<G::Scalar>,
    p: &[G::Point],
    Ghost(acc): Ghost<int>,
    Ghost(e): Ghost<int>,
)
    requires
        old(sc)@.len() == old(pt)@.len(),
        s@.len() == p@.len(),
        eqm(dot(values(s@), indices::<G>(p@)), e, G::Scalar::modulus()),
        eqm(dot(values(old(sc)@), indices::<G>(old(pt)@)), acc, G::Scalar::modulus()),
    ensures
        final(sc)@.len() == final(pt)@.len(),
        eqm(dot(values(final(sc)@), indices::<G>(final(pt)@)), acc + e, G::Scalar::modulus()),
{
    let ghost (a, b) = (values(sc@), indices::<G>(pt@));
    extend_msm::<G>(sc, pt, s, p);
    proof {
        G::Scalar::modulus_range();
        lemma_eqm_add(dot(a, b), acc, dot(values(s@), indices::<G>(p@)), e, G::Scalar::modulus());
    }
}

/// The inner product that the weights alone determine.
proof fn lemma_delta(yw: Seq<int>, f: Flattened, q: int)
    requires
        q > 1,
        yw.len() == f.wl.len(),
        f.wl.len() == f.wr.len(),
        forall|i: int| 0 <= i < yw.len() ==> #[trigger] yw[i] == md(f.yi[i] * at(f.wr, i), q),
    ensures
        eqm(dot(yw, f.wl), delta(f), q),
{
    let a = |i: int| yw[i] * f.wl[i];
    let b = |i: int| (f.wr[i] * f.yi[i]) * f.wl[i];
    assert forall|i: int| 0 <= i < yw.len() implies eqm(#[trigger] a(i), b(i), q) by {
        let (u, v) = (f.yi[i], f.wr[i]);
        assert(yw[i] == md(f.yi[i] * at(f.wr, i), q));
        lemma_md_range(u * v, q);
        assert(u * v == v * u) by (nonlinear_arith);
        lemma_eqm_mul(yw[i], v * u, f.wl[i], f.wl[i], q);
    }
    lemma_eqm_sum(yw.len() as int, a, b, q);
}

/// The log of a verifier of a proof with `k` inputs: it stops where the first
/// check fails.
pub open spec fn verified_log<G: Group>(p: R1CSProof<G>, log: Log, k: int) -> Log {
    if k <= 0 || !p.ipp_proof.fits(k) {
        p.log_ipp(log)
    } else if !p.ipp_decodable() {
        p.log_batch(log, k)
    } else if !p.ecp_batched.fits(k) {
        p.log_ecp(log, k)
    } else {
        p.log_end(log, k)
    }
}

/// The inner product argument has the right lengths for `k` inputs, and its
/// cross terms are group elements.
pub open spec fn replayable<G: Group>(p: R1CSProof<G>, k: int) -> bool {
    &&& k > 0
    &&& p.ipp_proof.fits(k)
    &&& p.ipp_decodable()
}

/// What a verifier has got out of a proof when it draws the weight for the
/// equations.
pub struct Replay<G: Group> {
    log: Ghost<Log>,
    y: G::Scalar,
    z: G::Scalar,
    x: G::Scalar,
    x_prime: G::Scalar,
    x_ipp: G::Scalar,
    w_agg: G::Scalar,
    wL: Vec<G::Scalar>,
    wR: Vec<G::Scalar>,
    wO: Vec<G::Scalar>,
    wV: Vec<G::Scalar>,
    wc: G::Scalar,
    ipp: (Vec<G::Scalar>, Vec<G::Scalar>, G::Scalar, G::Scalar, Vec<G::Scalar>),
    U_points: Vec<G::Point>,
}

impl<G: Group> Replay<G> {
    /// The log of the transcript before the proof was read.
    pub closed spec fn log(self) -> Log {
        self.log@
    }

    /// These are the challenges, the flattened constraints, and the scalars and
    /// cross terms of the inner product argument for the proof `p` of a
    /// constraint system with `n` multipliers and `k` inputs.
    pub closed spec fn reads(self, p: R1CSProof<G>, cs: Seq<Terms>, n: int, k: int) -> bool {
        let q = G::Scalar::modulus();
        let c = p.challenges(self.log@, k);
        let s = p.ipp_proof.scalars(p.log_ipp(self.log@), k);
        &&& self.y.value() == c.y
        &&& self.z.value() == c.z
        &&& self.x.value() == c.x
        &&& self.x_prime.value() == c.x_prime
        &&& self.x_ipp.value() == c.x_ipp
        &&& self.w_agg.value() == c.w_agg
        &&& values(self.wL@) == weights_left(cs, n, c.z, q)
        &&& values(self.wR@) == weights_right(cs, n, c.z, q)
        &&& values(self.wO@) == weights_output(cs, n, c.z, q)
        &&& values(self.wV@) == weights_input(cs, k, c.z, q)
        &&& self.wc.value() == weight_constant(cs, c.z, q)
        &&& values(self.ipp.0@) == s.g
        &&& values(self.ipp.1@) == s.h
        &&& self.ipp.2.value() == s.q
        &&& self.ipp.3.value() == s.p
        &&& values(self.ipp.4@) == s.u
        &&& indices::<G>(self.U_points@) == p.ipp_elements()
    }
}

/// The decoded points of a proof, and of the commitment to the inputs.
struct Points<P> {
    a_i: P,
    a_o: P,
    s: P,
    v: P,
    s_prime: P,
    t_1: P,
    t_2: P,
    t_3: P,
    t_4: P,
    t_5: P,
    t_6: P,
    t_1_prime: P,
    s1_prime: P,
    s2_prime: P,
    a0: Vec<P>,
    a1: Vec<P>,
}

/// The decoded points are those of `o`.
spec fn opens<G: Group>(p: Points<G::Point>, o: Opened) -> bool {
    &&& G::index(p.a_i) == o.a_i
    &&& G::index(p.a_o) == o.a_o
    &&& G::index(p.s) == o.s
    &&& G::index(p.v) == o.v
    &&& G::index(p.s_prime) == o.s_prime
    &&& G::index(p.t_1) == o.t_1
    &&& G::index(p.t_2) == o.t_2
    &&& G::index(p.t_3) == o.t_3
    &&& G::index(p.t_4) == o.t_4
    &&& G::index(p.t_5) == o.t_5
    &&& G::index(p.t_6) == o.t_6
    &&& G::index(p.t_1_prime) == o.t_1_prime
    &&& G::index(p.s1_prime) == o.s1_prime
    &&& G::index(p.s2_prime) == o.s2_prime
    &&& indices::<G>(p.a0@) == o.a0
    &&& indices::<G>(p.a1@) == o.a1
}

/// Decodes a point.
fn decompress_point<G: Group>(e: &G::Encoding) -> (r: Result<G::Point, R1CSError>)
    ensures
        r is Ok <==> is_element::<G>(*e),
        r matches Ok(p) ==> G::index(p) == element::<G>(*e),
        r matches Err(e) ==> e == R1CSError::VerificationError,
{
    match G::decode(e) {
        Some(p) => Ok(p),
        None => Err(R1CSError::VerificationError),
    }
}

/// Decodes all points but the cross terms of the inner product argument.
fn decode_points<G: Group>(proof: &R1CSProof<G>, V: &G::Encoding) -> (r: Result<Points<G::Point>, R1CSError>)
    requires
        proof.shaped(),
    ensures
        r is Ok <==> proof.points_decodable() && is_element::<G>(*V) && proof.ecp_decodable(),
        r matches Ok(p) ==> opens::<G>(p, proof.opened(*V)),
        r matches Err(e) ==> e == R1CSError::VerificationError,
{
    let width: usize = 2 * proof.ecp_batched.k - 2;
    let a_i = decompress_point::<G>(&proof.A_I)?;
    let a_o = decompress_point::<G>(&proof.A_O)?;
    let s = decompress_point::<G>(&proof.S)?;
    let v = decompress_point::<G>(V)?;
    let s_prime = decompress_point::<G>(&proof.S_prime)?;
    let t_1_prime = decompress_point::<G>(&proof.T_1_prime)?;
    let t_1 = decompress_point::<G>(&proof.T_1)?;
    let t_2 = decompress_point::<G>(&proof.T_2)?;
    let t_3 = decompress_point::<G>(&proof.T_3)?;
    let t_4 = decompress_point::<G>(&proof.T_4)?;
    let t_5 = decompress_point::<G>(&proof.T_5)?;
    let t_6 = decompress_point::<G>(&proof.T_6)?;
    let s1_prime = decompress_point::<G>(&proof.S1_prime)?;
    let s2_prime = decompress_point::<G>(&proof.S2_prime)?;
    match (
        decode_pairs::<G>(&proof.ecp_batched.A_vecs, width, 0),
        decode_pairs::<G>(&proof.ecp_batched.A_vecs, width, 1),
    ) {
        (Some(a0), Some(a1)) => Ok(
            Points {
                a_i,
                a_o,
                s,
                v,
                s_prime,
                t_1,
                t_2,
                t_3,
                t_4,
                t_5,
                t_6,
                t_1_prime,
                s1_prime,
                s2_prime,
                a0,
                a1,
            },
        ),
        _ => Err(R1CSError::VerificationError),
    }
}

/// The flattened constraints, as scalars.
struct FlattenedScalars<F: Field> {
    wL: Vec<F>,
    wR: Vec<F>,
    wO: Vec<F>,
    wV: Vec<F>,
    wc: F,
    y_inv: Vec<F>,
}

impl<F: Field> FlattenedScalars<F> {
    /// The scalars are those of `f`.
    spec fn is(self, f: Flattened) -> bool {
        &&& values(self.wL@) == f.wl
        &&& values(self.wR@) == f.wr
        &&& values(self.wO@) == f.wo
        &&& values(self.wV@) == f.wv
        &&& self.wc.value() == f.wc
        &&& values(self.y_inv@) == f.yi
        &&& f.wl.len() == f.wr.len()
        &&& f.wo.len() == f.wr.len()
        &&& f.wr.len() <= f.k
        &&& f.wv.len() == f.k
        &&& f.yi.len() == f.k
        &&& 0 <= f.k
    }
}

/// The coefficients of all bases, cross terms and ciphertexts.
struct VectorScalars<F: Field> {
    g: Vec<F>,
    h: Vec<F>,
    u: Vec<F>,
    c1: Vec<F>,
    c2: Vec<F>,
    a0: Vec<F>,
    a1: Vec<F>,
}

/// Computes the coefficients of the bases `G_i` and `H_i`.
fn base_coefficients<F: Field>(
    fs: &FlattenedScalars<F>,
    yneg_wR: &Vec<F>,
    s_g: &Vec<F>,
    s_h: &Vec<F>,
    z_s: &Vec<F>,
    x: F,
    x_ipp: F,
    s_P: F,
    r4: F,
    Ghost(f): Ghost<Flattened>,
    Ghost(si): Ghost<IpaScalars>,
    Ghost(se): Ghost<EcpScalars>,
    Ghost(r4v): Ghost<int>,
    Ghost(g): Ghost<Seq<int>>,
    Ghost(h): Ghost<Seq<int>>,
) -> (r: (Vec<F>, Vec<F>))
    requires
        fs.is(f),
        yneg_wR@.len() == f.k,
        forall|i: int|
            0 <= i < f.k ==> (#[trigger] yneg_wR@[i]).value() == md(f.yi[i] * at(f.wr, i), F::modulus()),
        values(s_g@) == si.g,
        values(s_h@) == si.h,
        values(z_s@) == se.z,
        si.g.len() == f.k,
        si.h.len() == f.k,
        se.z.len() == f.k,
        s_P.value() == si.p,
        r4.value() == md(r4v, F::modulus()),
    ensures
        r.0@.len() == f.k,
        r.1@.len() == f.k,
        eqm(
            dot(values(r.0@), g),
            dot(si.g, g) - (x.value() * si.p) * sum_right(f, g) + r4v * dot(se.z, g),
            F::modulus(),
        ),
        eqm(
            dot(values(r.1@), h),
            sum_folded(f, h, si.h) - si.p * sum_left_output(f, h, x.value()) - (x_ipp.value() * si.p)
                * sum_input(f, h),
            F::modulus(),
        ),
{
    let ghost q = F::modulus();
    proof {
        F::modulus_range();
        assert(values(s_g@).len() == s_g@.len());
        assert(values(s_h@).len() == s_h@.len());
        assert(values(z_s@).len() == z_s@.len());
        assert(values(fs.y_inv@).len() == fs.y_inv@.len());
        assert(values(fs.wL@).len() == fs.wL@.len());
        assert(values(fs.wO@).len() == fs.wO@.len());
        assert(values(fs.wV@).len() == fs.wV@.len());
    }
    let padded_n: usize = s_g.len();
    let g_scalars = g_coefficients(s_g, yneg_wR, z_s, x, s_P, r4, Ghost(f));
    let wL_padded = zero_padded(&fs.wL, padded_n);
    let wO_padded = zero_padded(&fs.wO, padded_n);
    let h_scalars = h_coefficients(s_h, &fs.y_inv, &wL_padded, &wO_padded, &fs.wV, x, x_ipp, s_P);
    proof {
        lemma_md_range(r4v, q);
        assert forall|i: int| 0 <= i < f.k implies #[trigger] values(g_scalars@)[i] == md(
            si.g[i] - (x.value() * (f.yi[i] * at(f.wr, i))) * si.p + se.z[i] * r4.value(),
            q,
        ) by {
            assert(s_g@[i].value() == values(s_g@)[i]);
            assert(z_s@[i].value() == values(z_s@)[i]);
            assert(g_scalars@[i].value() == values(g_scalars@)[i]);
        }
        lemma_g_part(values(g_scalars@), f, si.g, se.z, x.value(), si.p, r4.value(), r4v, g, q);
        assert forall|i: int| 0 <= i < f.k implies #[trigger] values(h_scalars@)[i] == md(
            f.yi[i] * si.h[i] + (f.yi[i] * (x.value() * at(f.wl, i) + at(f.wo, i)) - 1) * (0 - si.p) + ((f.yi[i]
                * x_ipp.value()) * (0 - si.p)) * f.wv[i],
            q,
        ) by {
            assert(h_scalars@[i].value() == values(h_scalars@)[i]);
            assert(fs.y_inv@[i].value() == values(fs.y_inv@)[i]);
            assert(s_h@[i].value() == values(s_h@)[i]);
            assert(fs.wV@[i].value() == values(fs.wV@)[i]);
            assert(wL_padded@[i].value() == at(values(fs.wL@), i));
            assert(wO_padded@[i].value() == at(values(fs.wO@), i));
        }
        lemma_h_part(values(h_scalars@), f, si.h, x.value(), x_ipp.value(), si.p, h, q);
    }
    (g_scalars, h_scalars)
}

/// Computes the coefficients of one list of cross terms or ciphertexts.
fn scaled_list<F: Field>(
    v: &Vec<F>,
    n: usize,
    c: F,
    Ghost(cv): Ghost<int>,
    Ghost(vs): Ghost<Seq<int>>,
    Ghost(p): Ghost<Seq<int>>,
) -> (r: Vec<F>)
    requires
        n <= v@.len(),
        values(v@) == vs,
        c.value() == md(cv, F::modulus()),
    ensures
        r@.len() == n,
        eqm(dot(values(r@), p), cv * dot(vs.take(n as int), p), F::modulus()),
{
    let out = scale_prefix(v, n, c);
    proof {
        F::modulus_range();
        lemma_md_range(cv, F::modulus());
        assert forall|i: int| 0 <= i < n implies #[trigger] values(out@)[i] == md(
            vs[i] * c.value(),
            F::modulus(),
        ) by {
            assert(out@[i].value() == values(out@)[i]);
            assert(v@[i].value() == values(v@)[i]);
        }
        lemma_dot_scaled(values(out@), vs, c.value(), cv, p, F::modulus());
    }
    out
}

/// Appends the single group elements to a linear combination.
fn push_singles<G: Group>(
    sc: &mut Vec<G::Scalar>,
    pt: &mut Vec<G::Point>,
    k: &CoefficientScalars<G::Scalar>,
    p: &Points<G::Point>,
    pc: &PedersenGens<G>,
    c_0: G::Point,
    c_1: G::Point,
    Ghost(e): Ghost<Coefficients>,
    Ghost(o): Ghost<Opened>,
    Ghost(gv): Ghost<GensView>,
    Ghost(st): Ghost<Statement>,
)
    requires
        old(sc)@.len() == 0,
        old(pt)@.len() == 0,
        k.are(e),
        opens::<G>(*p, o),
        gv.b == G::index(pc.B),
        gv.b_blinding == G::index(pc.B_blinding),
        gv.f == G::index(pc.F),
        st.c_0 == G::index(c_0),
        st.c_1 == G::index(c_1),
    ensures
        final(sc)@.len() == final(pt)@.len(),
        eqm(
            dot(values(final(sc)@), indices::<G>(final(pt)@)),
            single_terms(e, o, gv, st),
            G::Scalar::modulus(),
        ),
{
    let ghost mut acc: int = 0;
    assert(dot(values(sc@), indices::<G>(pt@)) == 0);
    push_term::<G>(sc, pt, k.a_i, p.a_i, Ghost(acc), Ghost(e.a_i));
    proof {
        acc = acc + e.a_i * o.a_i;
    }
    push_term::<G>(sc, pt, k.a_o, p.a_o, Ghost(acc), Ghost(e.a_o));
    proof {
        acc = acc + e.a_o * o.a_o;
    }
    push_term::<G>(sc, pt, k.s, p.s, Ghost(acc), Ghost(e.s));
    proof {
        acc = acc + e.s * o.s;
    }
    push_term::<G>(sc, pt, k.v, p.v, Ghost(acc), Ghost(e.v));
    proof {
        acc = acc + e.v * o.v;
    }
    push_term::<G>(sc, pt, k.s_prime, p.s_prime, Ghost(acc), Ghost(e.s_prime));
    proof {
        acc = acc + e.s_prime * o.s_prime;
    }
    push_term::<G>(sc, pt, k.b, pc.B, Ghost(acc), Ghost(e.b));
    proof {
        acc = acc + e.b * gv.b;
    }
    push_term::<G>(sc, pt, k.b_blinding, pc.B_blinding, Ghost(acc), Ghost(e.b_blinding));
    proof {
        acc = acc + e.b_blinding * gv.b_blinding;
    }
    push_term::<G>(sc, pt, k.f, pc.F, Ghost(acc), Ghost(e.f));
    proof {
        acc = acc + e.f * gv.f;
    }
    push_term::<G>(sc, pt, k.t_1_prime, p.t_1_prime, Ghost(acc), Ghost(e.t_1_prime));
    proof {
        acc = acc + e.t_1_prime * o.t_1_prime;
    }
    push_term::<G>(sc, pt, k.t_2_input, p.t_2, Ghost(acc), Ghost(e.t_2_input));
    proof {
        acc = acc + e.t_2_input * o.t_2;
    }
    push_term::<G>(sc, pt, k.t_1, p.t_1, Ghost(acc), Ghost(e.t_1));
    proof {
        acc = acc + e.t_1 * o.t_1;
    }
    push_term::<G>(sc, pt, k.t_2, p.t_2, Ghost(acc), Ghost(e.t_2));
    proof {
        acc = acc + e.t_2 * o.t_2;
    }
    push_term::<G>(sc, pt, k.t_3, p.t_3, Ghost(acc), Ghost(e.t_3));
    proof {
        acc = acc + e.t_3 * o.t_3;
    }
    push_term::<G>(sc, pt, k.t_4, p.t_4, Ghost(acc), Ghost(e.t_4));
    proof {
        acc = acc + e.t_4 * o.t_4;
    }
    push_term::<G>(sc, pt, k.t_5, p.t_5, Ghost(acc), Ghost(e.t_5));
    proof {
        acc = acc + e.t_5 * o.t_5;
    }
    push_term::<G>(sc, pt, k.t_6, p.t_6, Ghost(acc), Ghost(e.t_6));
    proof {
        acc = acc + e.t_6 * o.t_6;
    }
    push_term::<G>(sc, pt, k.s1_prime, p.s1_prime, Ghost(acc), Ghost(e.s1_prime));
    proof {
        acc = acc + e.s1_prime * o.s1_prime;
    }
    push_term::<G>(sc, pt, k.s2_prime, p.s2_prime, Ghost(acc), Ghost(e.s2_prime));
    proof {
        acc = acc + e.s2_prime * o.s2_prime;
    }
    push_term::<G>(sc, pt, k.c_0, c_0, Ghost(acc), Ghost(e.c_0));
    proof {
        acc = acc + e.c_0 * st.c_0;
    }
    push_term::<G>(sc, pt, k.c_1, c_1, Ghost(acc), Ghost(e.c_1));
    proof {
        acc = acc + e.c_1 * st.c_1;
    }
    proof {
        assert(acc == single_terms(e, o, gv, st));
    }
}

/// The batched equation holds.
fn check_equation<G: Group>(
    proof: &R1CSProof<G>,
    c: &ChallengeScalars<G::Scalar>,
    fs: &FlattenedScalars<G::Scalar>,
    ipp: &(Vec<G::Scalar>, Vec<G::Scalar>, G::Scalar, G::Scalar, Vec<G::Scalar>),
    ecp: &(Vec<G::Scalar>, G::Scalar, Vec<G::Scalar>),
    U_points: &Vec<G::Point>,
    points: &Points<G::Point>,
    pc: &PedersenGens<G>,
    G_padded: &Vec<G::Point>,
    H_padded: &Vec<G::Point>,
    C1_prime: &[G::Point],
    C2_prime: &[G::Point],
    C: &[G::Point],
    r: G::Scalar,
    Ghost(f): Ghost<Flattened>,
    Ghost(o): Ghost<Opened>,
    Ghost(si): Ghost<IpaScalars>,
    Ghost(se): Ghost<EcpScalars>,
    Ghost(gv): Ghost<GensView>,
    Ghost(st): Ghost<Statement>,
) -> (res: bool)
    requires
        fs.is(f),
        opens::<G>(*points, o),
        indices::<G>(U_points@) == o.u,
        values(ipp.0@) == si.g,
        values(ipp.1@) == si.h,
        ipp.2.value() == si.q,
        ipp.3.value() == si.p,
        values(ipp.4@) == si.u,
        values(ecp.0@) == se.z,
        ecp.1.value() == se.p,
        values(ecp.2@) == se.u,
        si.g.len() == f.k,
        si.h.len() == f.k,
        se.z.len() == f.k,
        si.u.len() == o.u.len(),
        se.u.len() == o.a0.len(),
        se.u.len() == o.a1.len(),
        indices::<G>(G_padded@) == gv.g.take(f.k),
        indices::<G>(H_padded@) == gv.h.take(f.k),
        f.k <= gv.g.len(),
        f.k <= gv.h.len(),
        gv.b == G::index(pc.B),
        gv.b_blinding == G::index(pc.B_blinding),
        gv.f == G::index(pc.F),
        C1_prime@.len() <= f.k,
        C1_prime@.len() <= C2_prime@.len(),
        C@.len() >= 2,
        st.c1 == indices::<G>(C1_prime@),
        st.c2 == indices::<G>(C2_prime@),
        st.c_0 == G::index(C@[0]),
        st.c_1 == G::index(C@[1]),
    ensures
        res == (md(
            batched_equation(o, proof.responses(), f, c@, gv, st, si, se, r.value()),
            G::Scalar::modulus(),
        ) == 0),
{
    let ghost q = G::Scalar::modulus();
    let ghost rv = r.value();
    let ghost r3 = rv * rv * rv;
    let ghost r4 = rv * rv * rv * rv;
    let ghost wcd = f.wc + delta(f);
    let ghost e = coefficients(proof.responses(), c@, wcd, si.p, si.q, se.p, rv);
    let (s_g, s_h, s_U) = (&ipp.0, &ipp.1, &ipp.4);
    let (z_s, s_A) = (&ecp.0, &ecp.2);
    proof {
        G::Scalar::modulus_range();
        lemma_md_small(0, q);
        assert(values(fs.wL@).len() == fs.wL@.len());
        assert(values(fs.wR@).len() == fs.wR@.len());
        assert(values(fs.y_inv@).len() == fs.y_inv@.len());
        assert(values(s_U@).len() == s_U@.len());
        assert(values(s_A@).len() == s_A@.len());
        assert(values(z_s@).len() == z_s@.len());
        assert(indices::<G>(U_points@).len() == U_points@.len());
        assert(indices::<G>(points.a0@).len() == points.a0@.len());
        assert(indices::<G>(points.a1@).len() == points.a1@.len());
        assert(indices::<G>(G_padded@).len() == G_padded@.len());
        assert(indices::<G>(H_padded@).len() == H_padded@.len());
    }
    let yneg_wR = right_weights(&fs.wR, &fs.y_inv);
    let yneg_wR_n = take_prefix(&yneg_wR, fs.wR.len());
    let delta_value = inner_product(&yneg_wR_n, &fs.wL);
    proof {
        lemma_delta(values(yneg_wR_n@), f, q);
        fs.wc.value_range();
    }
    let wc_delta = fs.wc.plus(delta_value);
    let k = single_coefficients::<G>(proof, c, wc_delta, ipp.3, ipp.2, ecp.1, r, Ghost(wcd));
    let (g_scalars, h_scalars) = base_coefficients(
        fs,
        &yneg_wR,
        s_g,
        s_h,
        z_s,
        c.x,
        c.x_ipp,
        ipp.3,
        k.r4,
        Ghost(f),
        Ghost(si),
        Ghost(se),
        Ghost(r4),
        Ghost(gv.g),
        Ghost(gv.h),
    );
    let k_original: usize = C1_prime.len();
    proof {
        lemma_md_small(1, q);
        assert(sub_mod(md(0, q), md(1, q), q) == md(0 - 1, q));
    }
    let u_scalars = scaled_list(s_U, s_U.len(), G::Scalar::one().negate(), Ghost(0 - 1), Ghost(si.u), Ghost(o.u));
    let c1_scalars = scaled_list(z_s, k_original, k.r3, Ghost(r3), Ghost(se.z), Ghost(st.c1));
    let c2_scalars = scaled_list(
        z_s,
        k_original,
        k.r3_batch,
        Ghost(r3 * c.batch.value()),
        Ghost(se.z),
        Ghost(st.c2),
    );
    let a0_scalars = scaled_list(s_A, s_A.len(), k.r4.negate(), Ghost(0 - r4), Ghost(se.u), Ghost(o.a0));
    let a1_scalars = scaled_list(s_A, s_A.len(), k.r3.negate(), Ghost(0 - r3), Ghost(se.u), Ghost(o.a1));
    let C2_used = take_prefix(C2_prime, k_original);
    proof {
        lemma_dot_prefix(values(g_scalars@), indices::<G>(G_padded@), gv.g);
        lemma_dot_prefix(values(h_scalars@), indices::<G>(H_padded@), gv.h);
        lemma_dot_prefix(values(c2_scalars@), indices::<G>(C2_used@), st.c2);
        assert(si.u.take(si.u.len() as int) =~= si.u);
        assert(se.u.take(se.u.len() as int) =~= se.u);
    }
    let mut sc: Vec<G::Scalar> = Vec::new();
    let mut pt: Vec<G::Point> = Vec::new();
    push_singles::<G>(
        &mut sc,
        &mut pt,
        &k,
        points,
        pc,
        C[0],
        C[1],
        Ghost(e),
        Ghost(o),
        Ghost(gv),
        Ghost(st),
    );
    let ghost mut acc: int = single_terms(e, o, gv, st);
    let ghost eg = dot(si.g, gv.g) - (c.x.value() * si.p) * sum_right(f, gv.g) + r4 * dot(se.z, gv.g);
    push_terms::<G>(&mut sc, &mut pt, &g_scalars, G_padded, Ghost(acc), Ghost(eg));
    proof {
        acc = acc + eg;
    }
    let ghost eh = sum_folded(f, gv.h, si.h) - si.p * sum_left_output(f, gv.h, c.x.value()) - (c.x_ipp.value()
        * si.p) * sum_input(f, gv.h);
    push_terms::<G>(&mut sc, &mut pt, &h_scalars, H_padded, Ghost(acc), Ghost(eh));
    proof {
        acc = acc + eh;
    }
    let ghost eu = (0 - 1) * dot(si.u, o.u);
    push_terms::<G>(&mut sc, &mut pt, &u_scalars, U_points, Ghost(acc), Ghost(eu));
    proof {
        acc = acc + eu;
    }
    let ghost ec1 = r3 * dot(se.z.take(k_original as int), st.c1);
    push_terms::<G>(&mut sc, &mut pt, &c1_scalars, C1_prime, Ghost(acc), Ghost(ec1));
    proof {
        acc = acc + ec1;
    }
    let ghost ec2 = (r3 * c.batch.value()) * dot(se.z.take(k_original as int), st.c2);
    push_terms::<G>(&mut sc, &mut pt, &c2_scalars, &C2_used, Ghost(acc), Ghost(ec2));
    proof {
        acc = acc + ec2;
    }
    let ghost ea0 = (0 - r4) * dot(se.u, o.a0);
    push_terms::<G>(&mut sc, &mut pt, &a0_scalars, &points.a0, Ghost(acc), Ghost(ea0));
    proof {
        acc = acc + ea0;
    }
    let ghost ea1 = (0 - r3) * dot(se.u, o.a1);
    push_terms::<G>(&mut sc, &mut pt, &a1_scalars, &points.a1, Ghost(acc), Ghost(ea1));
    proof {
        acc = acc + ea1;
        let (d0, d1) = (dot(se.u, o.a0), dot(se.u, o.a1));
        assert((0 - r4) * d0 == -(r4 * d0)) by (nonlinear_arith);
        assert((0 - r3) * d1 == -(r3 * d1)) by (nonlinear_arith);
        lemma_collect(o, proof.responses(), f, c@, gv, st, si, se, rv);
        assert(acc == batched_equation(o, proof.responses(), f, c@, gv, st, si, se, rv));
        assert(Seq::new(pt@.len(), |i: int| G::index(pt@[i])) =~= indices::<G>(pt@));
    }
    let mega_check = G::vartime_msm(&sc, &pt);
    G::is_identity(mega_check)
}

impl<'a, 'b, G: Group> VerifierCS<'a, 'b, G> {
    /// All that the verifier needs is there: generators, a commitment, a proof
    /// of the right shape and ciphertexts. With fewer generators than inputs it
    /// only refuses.
    pub open spec fn can_verify(&self, p: R1CSProof<G>, c1_len: int, c2_len: int, c_len: int) -> bool {
        &&& self.num_vars <= self.num_inputs
        &&& self.bp_gens.gens_capacity >= self.num_inputs ==> {
            &&& self.bp_gens.wf()
            &&& self.bp_gens.party_capacity >= 1
            &&& constraints_in_range(
                all_terms(self.constraints@),
                self.num_vars as int,
                self.num_inputs as int,
            )
            &&& p.shaped()
            &&& self.num_inputs + p.ipp_proof.k <= usize::MAX
            &&& self.num_inputs + p.ecp_batched.k <= usize::MAX
            &&& c1_len <= self.num_inputs
            &&& c1_len <= c2_len
            &&& c_len >= 2
        }
    }

    /// The verifier accepts the proof when it draws the weight `r`.
    pub open spec fn accepts(
        &self,
        p: R1CSProof<G>,
        C1_prime: Seq<G::Point>,
        C2_prime: Seq<G::Point>,
        C: Seq<G::Point>,
        log: Log,
        r: int,
    ) -> bool {
        &&& self.V@.len() > 0
        &&& accepts(
            p,
            self.V@[0],
            all_terms(self.constraints@),
            self.num_vars as int,
            self.num_inputs as int,
            gens_view(*self.bp_gens, *self.pc_gens),
            Statement {
                c1: indices::<G>(C1_prime),
                c2: indices::<G>(C2_prime),
                c_0: G::index(C[0]),
                c_1: G::index(C[1]),
            },
            log,
            r,
        )
    }

    /// What the verifier needs to read a proof as far as the inner product
    /// argument.
    pub open spec fn can_replay(&self, p: R1CSProof<G>) -> bool {
        self.bp_gens.gens_capacity >= self.num_inputs ==> {
            &&& constraints_in_range(
                all_terms(self.constraints@),
                self.num_vars as int,
                self.num_inputs as int,
            )
            &&& p.shaped()
            &&& self.num_inputs + p.ipp_proof.k <= usize::MAX
        }
    }

    /// Reads the proof as far as the inner product argument, which is where
    /// the weight for the equations is drawn.
    pub fn replay(&mut self, proof: &R1CSProof<G>) -> (res: Result<Replay<G>, R1CSError>)
        requires
            old(self).can_replay(*proof),
        ensures
            final(self).bp_gens == old(self).bp_gens,
            final(self).pc_gens == old(self).pc_gens,
            final(self).constraints == old(self).constraints,
            final(self).num_vars == old(self).num_vars,
            final(self).V == old(self).V,
            final(self).num_inputs == old(self).num_inputs,
            *final(final(self).transcript) == *final(old(self).transcript),
            old(self).bp_gens.gens_capacity < old(self).num_inputs ==> {
                &&& res == Err::<Replay<G>, R1CSError>(R1CSError::InvalidGeneratorsLength)
                &&& transcript_log(*final(self).transcript) == transcript_log(*old(self).transcript)
            },
            old(self).bp_gens.gens_capacity >= old(self).num_inputs ==> {
                let log = transcript_log(*old(self).transcript);
                let k = old(self).num_inputs as int;
                &&& res is Ok <==> replayable(*proof, k)
                &&& res matches Err(e) ==> {
                    &&& e == R1CSError::VerificationError
                    &&& transcript_log(*final(self).transcript) == verified_log(*proof, log, k)
                }
                &&& res matches Ok(r) ==> {
                    &&& r.log() == log
                    &&& r.reads(*proof, all_terms(old(self).constraints@), old(self).num_vars as int, k)
                    &&& transcript_log(*final(self).transcript) == proof.log_batch(log, k)
                }
            },
    {
        let padded_n: usize = self.num_inputs;
        if self.bp_gens.gens_capacity < padded_n {
            return Err(R1CSError::InvalidGeneratorsLength);
        }
        let ghost log0 = transcript_log(*self.transcript);
        let ghost kk = padded_n as int;

        // Transcript interaction
        <Transcript as TranscriptProtocol<G>>::commit_point(self.transcript, "A_I", &proof.A_I);
        <Transcript as TranscriptProtocol<G>>::commit_point(self.transcript, "A_O", &proof.A_O);
        <Transcript as TranscriptProtocol<G>>::commit_point(self.transcript, "S", &proof.S);
        let y = <Transcript as TranscriptProtocol<G>>::challenge_scalar(self.transcript, "y");
        let z = <Transcript as TranscriptProtocol<G>>::challenge_scalar(self.transcript, "z");
        <Transcript as TranscriptProtocol<G>>::commit_point(self.transcript, "T_1", &proof.T_1);
        <Transcript as TranscriptProtocol<G>>::commit_point(self.transcript, "T_3", &proof.T_3);
        <Transcript as TranscriptProtocol<G>>::commit_point(self.transcript, "T_4", &proof.T_4);
        <Transcript as TranscriptProtocol<G>>::commit_point(self.transcript, "T_5", &proof.T_5);
        <Transcript as TranscriptProtocol<G>>::commit_point(self.transcript, "T_6", &proof.T_6);
        <Transcript as TranscriptProtocol<G>>::commit_point(self.transcript, "T_2", &proof.T_2);
        let x = <Transcript as TranscriptProtocol<G>>::challenge_scalar(self.transcript, "x");
        <Transcript as TranscriptProtocol<G>>::commit_scalar(self.transcript, "t_x", &proof.t_x);
        <Transcript as TranscriptProtocol<G>>::commit_scalar(
            self.transcript,
            "t_x_blinding",
            &proof.t_x_blinding,
        );
        <Transcript as TranscriptProtocol<G>>::commit_scalar(self.transcript, "e_blinding", &proof.e_blinding);
        let (wL, wR, wO, wV, wc) = self.flattened_constraints(&z);
        <Transcript as TranscriptProtocol<G>>::commit_point(self.transcript, "S_prime", &proof.S_prime);
        <Transcript as TranscriptProtocol<G>>::commit_point(self.transcript, "T_1_prime", &proof.T_1_prime);
        <Transcript as TranscriptProtocol<G>>::commit_point(self.transcript, "S1_prime", &proof.S1_prime);
        <Transcript as TranscriptProtocol<G>>::commit_point(self.transcript, "S2_prime", &proof.S2_prime);
        let x_prime = <Transcript as TranscriptProtocol<G>>::challenge_scalar(self.transcript, "x_prime");
        <Transcript as TranscriptProtocol<G>>::commit_scalar(self.transcript, "tc_x", &proof.tc_x);
        <Transcript as TranscriptProtocol<G>>::commit_scalar(
            self.transcript,
            "tc_x_blinding",
            &proof.tc_x_blinding,
        );
        <Transcript as TranscriptProtocol<G>>::commit_scalar(self.transcript, "ec_blinding", &proof.ec_blinding);
        <Transcript as TranscriptProtocol<G>>::commit_scalar(self.transcript, "r_blinding", &proof.r_blinding);
        <Transcript as TranscriptProtocol<G>>::commit_scalar(self.transcript, "t_cross", &proof.t_cross);
        let x_ipp = <Transcript as TranscriptProtocol<G>>::challenge_scalar(self.transcript, "x_ipp");
        let w_agg = <Transcript as TranscriptProtocol<G>>::challenge_scalar(self.transcript, "w_agg");
        assert(transcript_log(*self.transcript) == proof.log_ipp(log0));

        // Scalars and points of the inner product argument
        let ipp = match proof.ipp_proof.verification_scalars(padded_n, self.transcript) {
            Ok(t) => t,
            Err(_) => {
                return Err(R1CSError::VerificationError);
            },
        };
        let k_fold: usize = proof.ipp_proof.k;
        let U_points = match decode_rounds::<G>(&proof.ipp_proof.U_vecs, 2 * k_fold - 2) {
            Some(points) => points,
            None => {
                assert(!proof.ipp_decodable());
                return Err(R1CSError::VerificationError);
            },
        };
        assert(proof.ipp_decodable());
        Ok(Replay { log: Ghost(log0), y, z, x, x_prime, x_ipp, w_agg, wL, wR, wO, wV, wc, ipp, U_points })
    }

    /// Consumes the constraint system and verifies the proof, with a given
    /// random weight for its equations, from where it was read.
    pub fn conclude(
        self,
        replay: Replay<G>,
        proof: &R1CSProof<G>,
        C1_prime: &[G::Point],
        C2_prime: &[G::Point],
        C: &[G::Point],
        r: G::Scalar,
    ) -> (res: Result<(), R1CSError>)
        requires
            self.can_verify(
                *proof,
                C1_prime@.len() as int,
                C2_prime@.len() as int,
                C@.len() as int,
            ),
            self.bp_gens.gens_capacity >= self.num_inputs,
            replayable(*proof, self.num_inputs as int),
            replay.reads(
                *proof,
                all_terms(self.constraints@),
                self.num_vars as int,
                self.num_inputs as int,
            ),
            transcript_log(*old(self.transcript)) == proof.log_batch(replay.log(), self.num_inputs as int),
        ensures
            res == if self.accepts(*proof, C1_prime@, C2_prime@, C@, replay.log(), r.value()) {
                Ok::<(), R1CSError>(())
            } else {
                Err(R1CSError::VerificationError)
            },
            transcript_log(*final(self.transcript)) == verified_log(
                *proof,
                replay.log(),
                self.num_inputs as int,
            ),
    {
        let n: usize = self.num_vars;
        let padded_n: usize = self.num_inputs;
        let ghost q = G::Scalar::modulus();
        let ghost log0 = replay.log();
        let ghost kk = padded_n as int;
        let ghost gv = gens_view(*self.bp_gens, *self.pc_gens);
        let ghost cs = all_terms(self.constraints@);
        let ghost st = Statement {
            c1: indices::<G>(C1_prime@),
            c2: indices::<G>(C2_prime@),
            c_0: G::index(C@[0]),
            c_1: G::index(C@[1]),
        };
        proof {
            G::Scalar::modulus_range();
            lemma_md_small(0, q);
        }
        let gens = self.bp_gens.share(0);
        let Replay { log: _, y, z, x, x_prime, x_ipp, w_agg, wL, wR, wO, wV, wc, ipp, U_points } = replay;
        let ghost si = proof.ipp_proof.scalars(proof.log_ipp(log0), kk);

        // Scalars of the argument on the ciphertexts
        let chall_batched_ecp = <Transcript as TranscriptProtocol<G>>::challenge_scalar(
            self.transcript,
            "chall_batched_ecp",
        );
        let ghost se = proof.ecp_batched.scalars(proof.log_ecp(log0, kk), kk);
        let (z_s, s_E, s_A) = match proof.ecp_batched.verification_scalars(padded_n, self.transcript) {
            Ok(t) => t,
            Err(_) => {
                return Err(R1CSError::VerificationError);
            },
        };
        let c = ChallengeScalars { y, z, x, x_prime, x_ipp, w_agg, batch: chall_batched_ecp };
        assert(c@ == proof.challenges(log0, kk));
        let ghost f = flattened(cs, n as int, kk, y.value(), z.value(), q);

        // Points
        if self.V.len() == 0 {
            return Err(R1CSError::VerificationError);
        }
        let ghost o = proof.opened(self.V@[0]);
        let points = match decode_points::<G>(proof, &self.V[0]) {
            Ok(p) => p,
            Err(_) => {
                return Err(R1CSError::VerificationError);
            },
        };
        let y_inv = exp_vec(y.invert(), padded_n);
        let fs = FlattenedScalars { wL, wR, wO, wV, wc, y_inv };
        let G_padded = gens.G(padded_n);
        let H_padded = gens.H(padded_n);
        proof {
            assert(fs.is(f));
            assert(indices::<G>(G_padded@) =~= gv.g.take(kk));
            assert(indices::<G>(H_padded@) =~= gv.h.take(kk));
        }
        let ecp = (z_s, s_E, s_A);
        let holds: bool = check_equation::<G>(
            proof,
            &c,
            &fs,
            &ipp,
            &ecp,
            &U_points,
            &points,
            self.pc_gens,
            &G_padded,
            &H_padded,
            C1_prime,
            C2_prime,
            C,
            r,
            Ghost(f),
            Ghost(o),
            Ghost(si),
            Ghost(se),
            Ghost(gv),
            Ghost(st),
        );
        if holds {
            Ok(())
        } else {
            Err(R1CSError::VerificationError)
        }
    }

    /// Consumes the constraint system and verifies the proof, with a given
    /// random weight for its equations.
    pub fn verify_with(
        self,
        proof: &R1CSProof<G>,
        C1_prime: &[G::Point],
        C2_prime: &[G::Point],
        C: &[G::Point],
        r: G::Scalar,
    ) -> (res: Result<(), R1CSError>)
        requires
            self.can_verify(
                *proof,
                C1_prime@.len() as int,
                C2_prime@.len() as int,
                C@.len() as int,
            ),
        ensures
            self.bp_gens.gens_capacity < self.num_inputs ==> {
                &&& res == Err::<(), R1CSError>(R1CSError::InvalidGeneratorsLength)
                &&& transcript_log(*final(self.transcript)) == transcript_log(*old(self.transcript))
            },
            self.bp_gens.gens_capacity >= self.num_inputs ==> {
                &&& res == if self.accepts(
                    *proof,
                    C1_prime@,
                    C2_prime@,
                    C@,
                    transcript_log(*old(self.transcript)),
                    r.value(),
                ) {
                    Ok::<(), R1CSError>(())
                } else {
                    Err(R1CSError::VerificationError)
                }
                &&& transcript_log(*final(self.transcript)) == verified_log(
                    *proof,
                    transcript_log(*old(self.transcript)),
                    self.num_inputs as int,
                )
            },
    {
        let mut cs = self;
        match cs.replay(proof) {
            Err(e) => Err(e),
            Ok(replay) => cs.conclude(replay, proof, C1_prime, C2_prime, C, r),
        }
    }
}

} // verus!
