//! The prover's side of the proof.

use merlin::Transcript;
use vstd::arithmetic::power::pow;
use vstd::prelude::*;
use crate::ecp::prove_ecp;
use crate::errors::R1CSError;
use crate::folding::{copy_slice, lemma_dot_push};
use crate::generators::{BulletproofGens, PedersenGens, gens_view};
use crate::group::{Field, Group, encodes, indices, values};
use crate::ipa::prove_ipa;
use crate::modular::{group_mod, inv_mod, lemma_md_range, lemma_md_small, md, sub_mod};
use crate::r1cs::constraint_system::{
    ConstraintSystem, all_terms, constraints_in_range, flatten, in_range, terms_in_range,
};
use crate::r1cs::honest::{
    Blindings, Ciphertexts, Polys, batched, ecp_start, h_prime, honest, honest_arguments, honest_circuit,
    honest_consistency, honest_polynomial, ipa_start, l_vec, lc_vec, polys, r_vec, t_poly, weights_input,
    weights_left, weights_output, weights_right,
};
use crate::r1cs::linear_combination::{LinearCombination, Terms, Variable, eval_terms};
use crate::r1cs::r1cs_proof::R1CSProof;
use crate::r1cs::secrets::{Secrets, erase_all};
use crate::r1cs::witness::{Witness, allocated, assignment, value_of};
use crate::sums::{at, dot, lemma_sum_ext, lemma_sum_zero, sum};
use crate::transcript::{Log, TranscriptProtocol, append, append_number, append_text, transcript_log};
use crate::util::{Poly2, Poly6, VecPoly1, VecPoly3, exp_vec, inner_product, powers_of, zero_vec};

verus! {

broadcast use group_mod;

/// Collects the inputs of a constraint system before its constraints are set.
pub struct Prover<'a, 'b, G: Group> {
    /// Number of inputs so far.
    pub m: u64,
    pub cs: ProverCS<'a, 'b, G>,
}

/// A constraint system in the prover's role: every variable has a value.
pub struct ProverCS<'a, 'b, G: Group> {
    pub transcript: &'a mut Transcript,
    pub bp_gens: &'b BulletproofGens<G>,
    pub pc_gens: &'b PedersenGens<G>,
    /// The constraints accumulated so far.
    pub constraints: Vec<LinearCombination<G::Scalar>>,
    /// The values of the variables, which are overwritten in the end.
    pub secrets: Secrets<G::Scalar>,
}

/// The scalars that the prover draws at random.
pub struct ProverBlindings<F: Field> {
    pub i_blinding: F,
    pub o_blinding: F,
    pub s_blinding: F,
    pub s_L: Vec<F>,
    pub s_R: Vec<F>,
    pub t_1_blinding: F,
    pub t_2_blinding: F,
    pub t_3_blinding: F,
    pub t_4_blinding: F,
    pub t_5_blinding: F,
    pub t_6_blinding: F,
    pub s_prime_blinding: F,
    pub rnd: F,
    pub s_L_prime: Vec<F>,
    pub t_1_prime_blinding: F,
}

impl<F: Field> ProverBlindings<F> {
    pub open spec fn view(self) -> Blindings {
        Blindings {
            i_blinding: self.i_blinding.value(),
            o_blinding: self.o_blinding.value(),
            s_blinding: self.s_blinding.value(),
            s_L: values(self.s_L@),
            s_R: values(self.s_R@),
            t_1_blinding: self.t_1_blinding.value(),
            t_2_blinding: self.t_2_blinding.value(),
            t_3_blinding: self.t_3_blinding.value(),
            t_4_blinding: self.t_4_blinding.value(),
            t_5_blinding: self.t_5_blinding.value(),
            t_6_blinding: self.t_6_blinding.value(),
            s_prime_blinding: self.s_prime_blinding.value(),
            rnd: self.rnd.value(),
            s_L_prime: values(self.s_L_prime@),
            t_1_prime_blinding: self.t_1_prime_blinding.value(),
        }
    }

    /// There are blinding vectors for `n` multipliers and `k` ciphertexts.
    pub open spec fn fits(self, n: int, k: int) -> bool {
        self.s_L@.len() == n && self.s_R@.len() == n && self.s_L_prime@.len() == k
    }
}

impl<F: Field> ProverBlindings<F> {
    /// Overwrites the blinding vectors with zeros.
    pub fn erase(&mut self)
        ensures
            forall|i: int| 0 <= i < final(self).s_L@.len() ==> (#[trigger] final(self).s_L@[i]).value() == 0,
            forall|i: int| 0 <= i < final(self).s_R@.len() ==> (#[trigger] final(self).s_R@[i]).value() == 0,
            forall|i: int|
                0 <= i < final(self).s_L_prime@.len() ==> (#[trigger] final(self).s_L_prime@[i]).value() == 0,
            final(self).s_L@.len() == old(self).s_L@.len(),
            final(self).s_R@.len() == old(self).s_R@.len(),
            final(self).s_L_prime@.len() == old(self).s_L_prime@.len(),
    {
        let zero = F::zero();
        erase_all(&mut self.s_L, zero);
        erase_all(&mut self.s_R, zero);
        erase_all(&mut self.s_L_prime, zero);
    }
}

impl<'a, 'b, G: Group> ProverCS<'a, 'b, G> {
    /// What the prover knows.
    pub open spec fn witness(&self) -> Witness {
        Witness {
            a_L: values(self.secrets.a_L@),
            a_R: values(self.secrets.a_R@),
            a_O: values(self.secrets.a_O@),
            v: values(self.secrets.v@),
            v_blinding: self.secrets.v_blinding.value(),
            constraints: all_terms(self.constraints@),
        }
    }

    /// The value of a linear combination.
    fn eval(&self, lc: &LinearCombination<G::Scalar>) -> (r: G::Scalar)
        requires
            self.wf(),
            terms_in_range(lc@, self.secrets.a_L@.len() as int, self.secrets.v@.len() as int),
        ensures
            r.value() == md(eval_terms(lc@, assignment(self.witness())), G::Scalar::modulus()),
    {
        let ghost q = G::Scalar::modulus();
        let ghost w = self.witness();
        let ghost f = |i: int| lc@[i].1 * assignment(w)(lc@[i].0);
        let mut acc = G::Scalar::zero();
        proof {
            G::Scalar::modulus_range();
            lemma_md_small(0, q);
        }
        let mut i: usize = 0;
        while i < lc.terms.len()
            invariant
                i <= lc.terms@.len(),
                self.wf(),
                terms_in_range(lc@, self.secrets.a_L@.len() as int, self.secrets.v@.len() as int),
                q == G::Scalar::modulus(),
                q > 1,
                w == self.witness(),
                f == |i: int| lc@[i].1 * assignment(w)(lc@[i].0),
                acc.value() == md(sum(i as int, f), q),
            decreases lc.terms@.len() - i,
        {
            let (var, coeff) = lc.terms[i];
            assert(in_range(lc@[i as int].0, self.secrets.a_L@.len() as int, self.secrets.v@.len() as int));
            let val = match var {
                Variable::MultiplierLeft(j) => self.secrets.a_L[j],
                Variable::MultiplierRight(j) => self.secrets.a_R[j],
                Variable::MultiplierOutput(j) => self.secrets.a_O[j],
                Variable::Committed(j) => self.secrets.v[j],
                Variable::One() => G::Scalar::one(),
            };
            proof {
                coeff.value_range();
                val.value_range();
                assert(val.value() == value_of(w, var));
            }
            acc = acc.plus(coeff.times(val));
            i += 1;
        }
        acc
    }

    /// Uses a challenge, `z`, to flatten the constraints in the constraint
    /// system into vectors used for proving.
    fn flattened_constraints(&self, z: &G::Scalar) -> (r: (
        Vec<G::Scalar>,
        Vec<G::Scalar>,
        Vec<G::Scalar>,
        Vec<G::Scalar>,
    ))
        requires
            constraints_in_range(all_terms(self.constraints@), self.secrets.a_L@.len() as int, self.secrets.v@.len() as int),
        ensures
            ({
                let cs = all_terms(self.constraints@);
                let n = self.secrets.a_L@.len() as int;
                let q = G::Scalar::modulus();
                &&& values(r.0@) == weights_left(cs, n, z.value(), q)
                &&& values(r.1@) == weights_right(cs, n, z.value(), q)
                &&& values(r.2@) == weights_output(cs, n, z.value(), q)
                &&& values(r.3@) == weights_input(cs, self.secrets.v@.len() as int, z.value(), q)
            }),
    {
        let n: usize = self.secrets.a_L.len();
        let m: usize = self.secrets.v.len();
        let (wL, wR, wO, wV, _wc) = flatten(&self.constraints, n, m, z);
        proof {
            let cs = all_terms(self.constraints@);
            let q = G::Scalar::modulus();
            assert(values(wL@) =~= weights_left(cs, n as int, z.value(), q));
            assert(values(wR@) =~= weights_right(cs, n as int, z.value(), q));
            assert(values(wO@) =~= weights_output(cs, n as int, z.value(), q));
            assert(values(wV@) =~= weights_input(cs, m as int, z.value(), q));
        }
        (wL, wR, wO, wV)
    }
}

impl<'a, 'b, G: Group> ConstraintSystem<G> for ProverCS<'a, 'b, G> {
    type Setting = (&'b BulletproofGens<G>, &'b PedersenGens<G>, Vec<G::Scalar>, G::Scalar);

    open spec fn setting(&self) -> Self::Setting {
        (self.bp_gens, self.pc_gens, self.secrets.v, self.secrets.v_blinding)
    }

    open spec fn constraints(&self) -> Seq<Terms> {
        all_terms(self.constraints@)
    }

    open spec fn multipliers(&self) -> nat {
        self.secrets.a_L@.len()
    }

    open spec fn inputs(&self) -> nat {
        self.secrets.v@.len()
    }

    open spec fn assigned(&self) -> Option<Witness> {
        Some(self.witness())
    }

    /// Every multiplier has a left input, a right input and an output.
    open spec fn wf(&self) -> bool {
        self.secrets.a_L@.len() == self.secrets.a_R@.len() == self.secrets.a_O@.len()
    }

    open spec fn log(&self) -> Log {
        transcript_log(*self.transcript)
    }

    open spec fn knows(&self, t: Terms) -> bool {
        self.wf() && terms_in_range(t, self.secrets.a_L@.len() as int, self.secrets.v@.len() as int)
    }

    proof fn knows_in_range(&self, t: Terms) {
    }

    fn multiply(
        &mut self,
        left: LinearCombination<G::Scalar>,
        right: LinearCombination<G::Scalar>,
    ) -> (r: (Variable, Variable, Variable))
        ensures
            *final(final(self).transcript) == *final(old(self).transcript),
    {
        let ghost w = self.witness();
        let l = self.eval(&left);
        let r = self.eval(&right);
        let o = l.times(r);
        proof {
            G::Scalar::modulus_range();
            l.value_range();
            r.value_range();
        }
        let n: usize = self.secrets.a_L.len();
        let l_var = Variable::MultiplierLeft(n);
        let r_var = Variable::MultiplierRight(self.secrets.a_R.len());
        let o_var = Variable::MultiplierOutput(self.secrets.a_O.len());
        self.secrets.a_L.push(l);
        self.secrets.a_R.push(r);
        self.secrets.a_O.push(o);
        let mut left = left;
        let mut right = right;
        let ghost (left0, right0) = (left@, right@);
        left.terms.push((l_var, G::Scalar::one().negate()));
        right.terms.push((r_var, G::Scalar::one().negate()));
        let ghost minus_one = sub_mod(0, 1, G::Scalar::modulus());
        proof {
            assert(left@ =~= left0.push((l_var, minus_one)));
            assert(right@ =~= right0.push((r_var, minus_one)));
        }
        self.constrain(left);
        self.constrain(right);
        proof {
            assert(values(self.secrets.a_L@) =~= w.a_L.push(l.value()));
            assert(values(self.secrets.a_R@) =~= w.a_R.push(r.value()));
            assert(values(self.secrets.a_O@) =~= w.a_O.push(o.value()));
            assert(all_terms(self.constraints@) =~= w.constraints.push(left0.push((l_var, minus_one))).push(
                right0.push((r_var, minus_one)),
            ));
        }
        (l_var, r_var, o_var)
    }

    fn allocate<F: FnOnce() -> Result<(G::Scalar, G::Scalar, G::Scalar), R1CSError>>(
        &mut self,
        assign_fn: F,
    ) -> (r: Result<(Variable, Variable, Variable), R1CSError>)
        ensures
            r is Ok ==> exists|vals: (G::Scalar, G::Scalar, G::Scalar)|
                {
                    &&& assign_fn.ensures((), Ok(vals))
                    &&& final(self).secrets.a_L@ == old(self).secrets.a_L@.push(vals.0)
                    &&& final(self).secrets.a_R@ == old(self).secrets.a_R@.push(vals.1)
                    &&& final(self).secrets.a_O@ == old(self).secrets.a_O@.push(vals.2)
                    &&& final(self).witness() == allocated(
                        old(self).witness(),
                        vals.0.value(),
                        vals.1.value(),
                        vals.2.value(),
                    )
                },
            r is Err ==> {
                &&& final(self).secrets.a_L == old(self).secrets.a_L
                &&& final(self).secrets.a_R == old(self).secrets.a_R
                &&& final(self).secrets.a_O == old(self).secrets.a_O
            },
            *final(final(self).transcript) == *final(old(self).transcript),
    {
        match assign_fn() {
            Err(e) => Err(e),
            Ok(vals) => {
                let (l, r, o) = vals;
                assert(assign_fn.ensures((), Ok((l, r, o))));
                let l_var = Variable::MultiplierLeft(self.secrets.a_L.len());
                let r_var = Variable::MultiplierRight(self.secrets.a_L.len());
                let o_var = Variable::MultiplierOutput(self.secrets.a_L.len());
                self.secrets.a_L.push(l);
                self.secrets.a_R.push(r);
                self.secrets.a_O.push(o);
                proof {
                    let w = old(self).witness();
                    assert(values(self.secrets.a_L@) =~= w.a_L.push(l.value()));
                    assert(values(self.secrets.a_R@) =~= w.a_R.push(r.value()));
                    assert(values(self.secrets.a_O@) =~= w.a_O.push(o.value()));
                }
                Ok((l_var, r_var, o_var))
            },
        }
    }

    fn constrain(&mut self, lc: LinearCombination<G::Scalar>)
        ensures
            final(self).secrets.a_L == old(self).secrets.a_L,
            final(self).secrets.a_R == old(self).secrets.a_R,
            final(self).secrets.a_O == old(self).secrets.a_O,
            *final(final(self).transcript) == *final(old(self).transcript),
    {
        let ghost cs0 = all_terms(self.constraints@);
        self.constraints.push(lc);
        assert(all_terms(self.constraints@) =~= cs0.push(lc@));
    }

    fn challenge_scalar(&mut self, label: &'static str) -> (r: G::Scalar)
        ensures
            final(self).secrets.a_L == old(self).secrets.a_L,
            final(self).secrets.a_R == old(self).secrets.a_R,
            final(self).secrets.a_O == old(self).secrets.a_O,
            *final(final(self).transcript) == *final(old(self).transcript),
    {
        <Transcript as TranscriptProtocol<G>>::challenge_scalar(self.transcript, label)
    }
}

impl<'a, 'b, G: Group> Prover<'a, 'b, G> {
    /// The number of inputs is counted right.
    pub open spec fn wf(&self) -> bool {
        self.m == self.cs.secrets.v@.len()
    }

    /// Constructs a new constraint system that does not have any inputs yet.
    pub fn new(
        bp_gens: &'b BulletproofGens<G>,
        pc_gens: &'b PedersenGens<G>,
        transcript: &'a mut Transcript,
    ) -> (r: Self)
        ensures
            r.wf(),
            r.cs.wf(),
            r.m == 0,
            r.cs.bp_gens == bp_gens,
            r.cs.pc_gens == pc_gens,
            r.cs.secrets.a_L@.len() == 0,
            r.cs.secrets.v@.len() == 0,
            r.cs.secrets.v_blinding.value() == 0,
            r.cs.constraints@.len() == 0,
            transcript_log(*r.cs.transcript) == append_text(
                transcript_log(*old(transcript)),
                "dom-sep"@,
                "r1cs v1"@,
            ),
            *final(r.cs.transcript) == *final(transcript),
    {
        <Transcript as TranscriptProtocol<G>>::r1cs_domain_sep(transcript);
        Prover {
            m: 0,
            cs: ProverCS {
                pc_gens,
                bp_gens,
                transcript,
                constraints: Vec::new(),
                secrets: Secrets::new(),
            },
        }
    }

    /// Adds the inputs `v` and commits to the first `committed` of them.
    ///
    /// Returns the commitment and the variables that stand for the inputs.
    pub(crate) fn commit_inputs(&mut self, v: &[G::Scalar], v_blinding: G::Scalar, committed: usize) -> (r: (
        G::Encoding,
        Vec<Variable>,
    ))
        requires
            old(self).wf(),
            old(self).cs.bp_gens.G_vec@.len() > 0,
            committed <= v@.len(),
            committed <= old(self).cs.bp_gens.G_vec@[0]@.len(),
            old(self).m + v@.len() <= usize::MAX,
        ensures
            final(self).wf(),
            final(self).cs.secrets.v@ == old(self).cs.secrets.v@ + v@,
            final(self).cs.secrets.v_blinding == v_blinding,
            final(self).cs.secrets.a_L == old(self).cs.secrets.a_L,
            final(self).cs.secrets.a_R == old(self).cs.secrets.a_R,
            final(self).cs.secrets.a_O == old(self).cs.secrets.a_O,
            final(self).cs.constraints == old(self).cs.constraints,
            final(self).cs.bp_gens == old(self).cs.bp_gens,
            final(self).cs.pc_gens == old(self).cs.pc_gens,
            encodes::<G>(
                r.0,
                md(
                    v_blinding.value() * G::index(old(self).cs.pc_gens.B_blinding) + dot(
                        values(v@.take(committed as int)),
                        indices::<G>(old(self).cs.bp_gens.G_vec@[0]@),
                    ),
                    G::Scalar::modulus(),
                ),
            ),
            r.1@ == Seq::new(v@.len(), |i: int| Variable::Committed((old(self).m + i) as usize)),
            transcript_log(*final(self).cs.transcript) == append(
                transcript_log(*old(self).cs.transcript),
                "V"@,
                G::bytes(r.0),
            ),
            *final(final(self).cs.transcript) == *final(old(self).cs.transcript),
    {
        let start_index: usize = self.m as usize;
        let n_padded: usize = v.len();
        let ghost v0 = self.cs.secrets.v@;
        self.m = self.m + n_padded as u64;
        let mut vars: Vec<Variable> = Vec::new();
        let mut i: usize = 0;
        while i < n_padded
            invariant
                i <= n_padded == v@.len(),
                start_index == old(self).m,
                start_index + n_padded <= usize::MAX,
                self.m == old(self).m + n_padded,
                self.cs.secrets.v@ == v0 + v@.take(i as int),
                self.cs.secrets.a_L == old(self).cs.secrets.a_L,
                self.cs.secrets.a_R == old(self).cs.secrets.a_R,
                self.cs.secrets.a_O == old(self).cs.secrets.a_O,
                self.cs.constraints == old(self).cs.constraints,
                self.cs.bp_gens == old(self).cs.bp_gens,
                self.cs.pc_gens == old(self).cs.pc_gens,
                *self.cs.transcript == *old(self).cs.transcript,
                *final(self.cs.transcript) == *final(old(self).cs.transcript),
                vars@.len() == i,
                forall|j: int| 0 <= j < i ==> #[trigger] vars@[j] == Variable::Committed((start_index + j) as usize),
            decreases n_padded - i,
        {
            self.cs.secrets.v.push(v[i]);
            vars.push(Variable::Committed(start_index + i));
            i += 1;
            assert(v@.take(i as int) =~= v@.take(i - 1).push(v@[i - 1]));
        }
        assert(v@.take(i as int) =~= v@);
        self.cs.secrets.v_blinding = v_blinding;
        let scalars = take_prefix(v, committed);
        let points = take_prefix(&self.cs.bp_gens.G_vec[0], committed);
        let none_s: Vec<G::Scalar> = Vec::new();
        let none_p: Vec<G::Point> = Vec::new();
        let V = blinded_msm::<G>(v_blinding, self.cs.pc_gens.B_blinding, &scalars, &points, &none_s, &none_p);
        let V_bytes = G::encode(V);
        proof {
            lemma_dot_prefix(
                values(v@.take(committed as int)),
                indices::<G>(points@),
                indices::<G>(self.cs.bp_gens.G_vec@[0]@),
            );
        }
        <Transcript as TranscriptProtocol<G>>::commit_point(self.cs.transcript, "V", &V_bytes);
        assert(vars@ =~= Seq::new(v@.len(), |i: int| Variable::Committed((old(self).m + i) as usize)));
        (V_bytes, vars)
    }

    /// Consumes the prover and adds its commitments to the transcript.
    /// Returns a constraint system for adding constraints.
    pub fn finalize_inputs(self) -> (r: ProverCS<'a, 'b, G>)
        ensures
            r.constraints == self.cs.constraints,
            r.secrets.a_L == self.cs.secrets.a_L,
            r.secrets.a_R == self.cs.secrets.a_R,
            r.secrets.a_O == self.cs.secrets.a_O,
            r.setting() == self.cs.setting(),
            transcript_log(*r.transcript) == append_number(
                transcript_log(*old(self.cs.transcript)),
                "m"@,
                self.m as int,
            ),
            *final(r.transcript) == *final(self.cs.transcript),
    {
        <Transcript as TranscriptProtocol<G>>::commit_u64(self.cs.transcript, "m", self.m);
        self.cs
    }
}

/// The first `n` entries of a slice.
pub(crate) fn take_prefix<T: Copy>(s: &[T], n: usize) -> (r: Vec<T>)
    requires
        n <= s@.len(),
    ensures
        r@ == s@.take(n as int),
{
    let mut out: Vec<T> = Vec::new();
    let mut i: usize = 0;
    while i < n
        invariant
            i <= n <= s@.len(),
            out@ == s@.take(i as int),
        decreases n - i,
    {
        out.push(s[i]);
        i += 1;
        assert(s@.take(i as int) =~= s@.take(i - 1).push(s@[i - 1]));
    }
    out
}

/// Only the bases that meet a coefficient count.
pub proof fn lemma_dot_prefix(a: Seq<int>, x: Seq<int>, y: Seq<int>)
    requires
        x.len() >= a.len(),
        y.len() >= a.len(),
        forall|i: int| 0 <= i < a.len() ==> #[trigger] x[i] == y[i],
    ensures
        dot(a, x) == dot(a, y),
{
    let f = |i: int| a[i] * x[i];
    let g = |i: int| a[i] * y[i];
    assert forall|i: int| 0 <= i < a.len() implies #[trigger] f(i) == g(i) by {
        assert(x[i] == y[i]);
    }
    lemma_sum_ext(a.len() as int, f, g);
}

/// The linear combination of a blinding base and two lists of points.
pub(crate) fn blinded_msm<G: Group>(
    blinding: G::Scalar,
    base: G::Point,
    s1: &[G::Scalar],
    p1: &[G::Point],
    s2: &[G::Scalar],
    p2: &[G::Point],
) -> (r: G::Point)
    requires
        s1@.len() == p1@.len(),
        s2@.len() == p2@.len(),
    ensures
        G::index(r) == md(
            blinding.value() * G::index(base) + dot(values(s1@), indices::<G>(p1@)) + dot(
                values(s2@),
                indices::<G>(p2@),
            ),
            G::Scalar::modulus(),
        ),
{
    let mut sc: Vec<G::Scalar> = Vec::new();
    let mut pt: Vec<G::Point> = Vec::new();
    let ghost (e, f) = (values(sc@), indices::<G>(pt@));
    sc.push(blinding);
    pt.push(base);
    proof {
        lemma_dot_push(e, f, blinding.value(), G::index(base));
        assert(values(sc@) =~= e.push(blinding.value()));
        assert(indices::<G>(pt@) =~= f.push(G::index(base)));
    }
    extend_msm::<G>(&mut sc, &mut pt, s1, p1);
    extend_msm::<G>(&mut sc, &mut pt, s2, p2);
    let r = G::msm(&sc, &pt);
    assert(Seq::new(pt@.len(), |i: int| G::index(pt@[i])) =~= indices::<G>(pt@));
    r
}

/// Appends coefficients and points to a linear combination.
pub(crate) fn extend_msm<G: Group>(
    sc: &mut Vec<G::Scalar>,
    pt: &mut Vec<G::Point>,
    s: &[G::Scalar],
    p: &[G::Point],
)
    requires
        old(sc)@.len() == old(pt)@.len(),
        s@.len() == p@.len(),
    ensures
        final(sc)@.len() == final(pt)@.len(),
        dot(values(final(sc)@), indices::<G>(final(pt)@)) == dot(values(old(sc)@), indices::<G>(old(pt)@))
            + dot(values(s@), indices::<G>(p@)),
{
    let ghost start = dot(values(sc@), indices::<G>(pt@));
    let ghost f = |i: int| values(s@)[i] * indices::<G>(p@)[i];
    let mut i: usize = 0;
    while i < s.len()
        invariant
            i <= s@.len() == p@.len(),
            sc@.len() == pt@.len(),
            f == |i: int| values(s@)[i] * indices::<G>(p@)[i],
            dot(values(sc@), indices::<G>(pt@)) == start + sum(i as int, f),
        decreases s@.len() - i,
    {
        let ghost (a, b) = (values(sc@), indices::<G>(pt@));
        sc.push(s[i]);
        pt.push(p[i]);
        i += 1;
        proof {
            let (x, y) = (values(s@)[i - 1], indices::<G>(p@)[i - 1]);
            lemma_dot_push(a, b, x, y);
            assert(values(sc@) =~= a.push(x));
            assert(indices::<G>(pt@) =~= b.push(y));
        }
    }
}

/// Builds the polynomials `l(X)` and `r(X)` from the flattened constraints.
fn build_polys<F: Field>(
    a_L: &Vec<F>,
    a_R: &Vec<F>,
    a_O: &Vec<F>,
    blindings: &ProverBlindings<F>,
    wL: &Vec<F>,
    wR: &Vec<F>,
    wO: &Vec<F>,
    exp_y: &Vec<F>,
    exp_y_inv: &Vec<F>,
    Ghost(w): Ghost<Witness>,
    Ghost(y): Ghost<int>,
    Ghost(z): Ghost<int>,
) -> (r: (VecPoly3<F>, VecPoly3<F>))
    requires
        w.a_L == values(a_L@),
        w.a_R == values(a_R@),
        w.a_O == values(a_O@),
        a_L@.len() == a_R@.len() == a_O@.len(),
        a_L@.len() <= exp_y@.len() == exp_y_inv@.len(),
        blindings.s_L@.len() == a_L@.len(),
        blindings.s_R@.len() == a_L@.len(),
        values(wL@) == weights_left(w.constraints, a_L@.len() as int, z, F::modulus()),
        values(wR@) == weights_right(w.constraints, a_L@.len() as int, z, F::modulus()),
        values(wO@) == weights_output(w.constraints, a_L@.len() as int, z, F::modulus()),
        values(exp_y@) == powers_of(y, exp_y@.len() as int, F::modulus()),
        values(exp_y_inv@) == powers_of(inv_mod(y, F::modulus()), exp_y@.len() as int, F::modulus()),
    ensures
        r.0.has_len(a_L@.len() as int),
        r.1.has_len(a_L@.len() as int),
        forall|i: int| 0 <= i < a_L@.len() ==> (#[trigger] r.0.0@[i]).value() == 0,
        forall|i: int| 0 <= i < a_L@.len() ==> (#[trigger] r.1.2@[i]).value() == 0,
        ({
            let p = polys(w, blindings@, y, z, F::modulus());
            &&& values(r.0.1@) == p.l1
            &&& values(r.0.2@) == p.l2
            &&& values(r.0.3@) == p.l3
            &&& values(r.1.0@) == p.r0
            &&& values(r.1.1@) == p.r1
            &&& values(r.1.3@) == p.r3
        }),
{
    let n: usize = a_L.len();
    let ghost q = F::modulus();
    let ghost p = polys(w, blindings@, y, z, q);
    proof {
        F::modulus_range();
        assert(values(wL@).len() == n);
        assert(values(wR@).len() == n);
        assert(values(wO@).len() == n);
    }
    let mut l1: Vec<F> = Vec::new();
    let mut r0: Vec<F> = Vec::new();
    let mut r1: Vec<F> = Vec::new();
    let mut r3: Vec<F> = Vec::new();
    let mut i: usize = 0;
    while i < n
        invariant
            i <= n == a_L@.len(),
            a_L@.len() == a_R@.len() == a_O@.len(),
            a_L@.len() <= exp_y@.len() == exp_y_inv@.len(),
            blindings.s_L@.len() == n,
            blindings.s_R@.len() == n,
            wL@.len() == n,
            wR@.len() == n,
            wO@.len() == n,
            q == F::modulus(),
            q > 1,
            w.a_L == values(a_L@),
            w.a_R == values(a_R@),
            values(wL@) == weights_left(w.constraints, n as int, z, q),
            values(wR@) == weights_right(w.constraints, n as int, z, q),
            values(wO@) == weights_output(w.constraints, n as int, z, q),
            values(exp_y@) == powers_of(y, exp_y@.len() as int, q),
            values(exp_y_inv@) == powers_of(inv_mod(y, q), exp_y@.len() as int, q),
            p == polys(w, blindings@, y, z, q),
            l1@.len() == i,
            r0@.len() == i,
            r1@.len() == i,
            r3@.len() == i,
            forall|j: int| 0 <= j < i ==> (#[trigger] l1@[j]).value() == p.l1[j],
            forall|j: int| 0 <= j < i ==> (#[trigger] r0@[j]).value() == p.r0[j],
            forall|j: int| 0 <= j < i ==> (#[trigger] r1@[j]).value() == p.r1[j],
            forall|j: int| 0 <= j < i ==> (#[trigger] r3@[j]).value() == p.r3[j],
        decreases n - i,
    {
        proof {
            let j = i as int;
            a_L@[j].value_range();
            a_R@[j].value_range();
            blindings.s_R@[j].value_range();
            wL@[j].value_range();
            wR@[j].value_range();
            wO@[j].value_range();
            exp_y@[j].value_range();
            exp_y_inv@[j].value_range();
            assert(wL@[j].value() == values(wL@)[j]);
            assert(wR@[j].value() == values(wR@)[j]);
            assert(wO@[j].value() == values(wO@)[j]);
            assert(exp_y@[j].value() == values(exp_y@)[j]);
            assert(exp_y_inv@[j].value() == values(exp_y_inv@)[j]);
            assert(powers_of(y, n as int, q)[j] == exp_y@[j].value());
            assert(powers_of(inv_mod(y, q), n as int, q)[j] == exp_y_inv@[j].value());
        }
        l1.push(a_L[i].plus(exp_y_inv[i].times(wR[i])));
        r0.push(wO[i].minus(exp_y[i]));
        r1.push(exp_y[i].times(a_R[i]).plus(wL[i]));
        r3.push(exp_y[i].times(blindings.s_R[i]));
        i += 1;
    }
    let l2: Vec<F> = copy_slice(a_O);
    let l3: Vec<F> = copy_slice(&blindings.s_L);
    proof {
        assert(values(l1@) =~= p.l1);
        assert(values(r0@) =~= p.r0);
        assert(values(r1@) =~= p.r1);
        assert(values(r3@) =~= p.r3);
    }
    (VecPoly3(zero_vec(n), l1, l2, l3), VecPoly3(r0, r1, zero_vec(n), r3))
}

/// Evaluates `l(X)` and `r(X)` at `x` and extends them to the number of inputs.
fn eval_polys<F: Field>(
    l_poly: &VecPoly3<F>,
    r_poly: &VecPoly3<F>,
    x: F,
    exp_y: &Vec<F>,
    Ghost(w): Ghost<Witness>,
    Ghost(p): Ghost<Polys>,
    Ghost(y): Ghost<int>,
) -> (r: (Vec<F>, Vec<F>))
    requires
        w.a_L.len() <= w.v.len() == exp_y@.len(),
        l_poly.has_len(w.a_L.len() as int),
        r_poly.has_len(w.a_L.len() as int),
        forall|i: int| 0 <= i < w.a_L.len() ==> (#[trigger] l_poly.0@[i]).value() == 0,
        forall|i: int| 0 <= i < w.a_L.len() ==> (#[trigger] r_poly.2@[i]).value() == 0,
        values(l_poly.1@) == p.l1,
        values(l_poly.2@) == p.l2,
        values(l_poly.3@) == p.l3,
        values(r_poly.0@) == p.r0,
        values(r_poly.1@) == p.r1,
        values(r_poly.3@) == p.r3,
        values(exp_y@) == powers_of(y, exp_y@.len() as int, F::modulus()),
    ensures
        values(r.0@) == l_vec(w, p, x.value(), F::modulus()),
        values(r.1@) == r_vec(w, p, y, x.value(), F::modulus()),
{
    let ghost q = F::modulus();
    let ghost lv = l_vec(w, p, x.value(), q);
    let ghost rv = r_vec(w, p, y, x.value(), q);
    let mut l = l_poly.eval(x);
    let mut r = r_poly.eval(x);
    let n: usize = l.len();
    let k: usize = exp_y.len();
    proof {
        F::modulus_range();
        lemma_md_small(0, q);
        assert forall|j: int| 0 <= j < n implies (#[trigger] l@[j]).value() == lv[j] by {
            assert(l_poly.0@[j].value() == 0);
            assert(l_poly.1@[j].value() == values(l_poly.1@)[j]);
            assert(l_poly.2@[j].value() == values(l_poly.2@)[j]);
            assert(l_poly.3@[j].value() == values(l_poly.3@)[j]);
        }
        assert forall|j: int| 0 <= j < n implies (#[trigger] r@[j]).value() == rv[j] by {
            assert(r_poly.0@[j].value() == values(r_poly.0@)[j]);
            assert(r_poly.1@[j].value() == values(r_poly.1@)[j]);
            assert(r_poly.2@[j].value() == 0);
            assert(r_poly.3@[j].value() == values(r_poly.3@)[j]);
        }
    }
    let mut i: usize = n;
    while i < k
        invariant
            n <= i <= k,
            n == w.a_L.len(),
            k == w.v.len() == exp_y@.len(),
            q == F::modulus(),
            q > 1,
            md(0, q) == 0,
            lv == l_vec(w, p, x.value(), q),
            rv == r_vec(w, p, y, x.value(), q),
            values(exp_y@) == powers_of(y, k as int, q),
            l@.len() == i,
            r@.len() == i,
            forall|j: int| 0 <= j < i ==> (#[trigger] l@[j]).value() == lv[j],
            forall|j: int| 0 <= j < i ==> (#[trigger] r@[j]).value() == rv[j],
        decreases k - i,
    {
        proof {
            assert(exp_y@[i as int].value() == values(exp_y@)[i as int]);
            assert(exp_y@[i as int].value() == md(pow(y, i as nat), q));
            assert(sub_mod(md(0, q), md(pow(y, i as nat), q), q) == md(0 - pow(y, i as nat), q));
        }
        l.push(F::zero());
        r.push(exp_y[i].negate());
        i += 1;
    }
    assert(values(l@) =~= lv);
    assert(values(r@) =~= rv);
    (l, r)
}

/// Adds `c` times the second vector to the first.
fn add_scaled<F: Field>(a: &Vec<F>, c: F, b: &Vec<F>) -> (r: Vec<F>)
    requires
        a@.len() == b@.len(),
    ensures
        values(r@) == Seq::new(
            a@.len(),
            |i: int| md(values(a@)[i] + c.value() * values(b@)[i], F::modulus()),
        ),
{
    let mut out: Vec<F> = Vec::new();
    let mut i: usize = 0;
    while i < a.len()
        invariant
            i <= a@.len() == b@.len(),
            out@.len() == i,
            forall|j: int|
                0 <= j < i ==> (#[trigger] out@[j]).value() == md(
                    a@[j].value() + c.value() * b@[j].value(),
                    F::modulus(),
                ),
        decreases a@.len() - i,
    {
        proof {
            F::modulus_range();
            a@[i as int].value_range();
            b@[i as int].value_range();
            c.value_range();
        }
        out.push(a[i].plus(c.times(b[i])));
        i += 1;
    }
    assert(values(out@) =~= Seq::new(
        a@.len(),
        |i: int| md(values(a@)[i] + c.value() * values(b@)[i], F::modulus()),
    ));
    out
}

/// Multiplies each point by a scalar.
fn scale_points<G: Group>(p: &Vec<G::Point>, s: &Vec<G::Scalar>) -> (r: Vec<G::Point>)
    requires
        p@.len() == s@.len(),
    ensures
        r@.len() == p@.len(),
        forall|i: int|
            0 <= i < p@.len() ==> G::index(#[trigger] r@[i]) == md(
                G::index(p@[i]) * s@[i].value(),
                G::Scalar::modulus(),
            ),
{
    let mut out: Vec<G::Point> = Vec::new();
    let mut i: usize = 0;
    while i < p.len()
        invariant
            i <= p@.len() == s@.len(),
            out@.len() == i,
            forall|j: int|
                0 <= j < i ==> G::index(#[trigger] out@[j]) == md(
                    G::index(p@[j]) * s@[j].value(),
                    G::Scalar::modulus(),
                ),
        decreases p@.len() - i,
    {
        proof {
            G::Scalar::modulus_range();
            G::index_range(p@[i as int]);
            s@[i as int].value_range();
        }
        out.push(G::times(p[i], s[i]));
        i += 1;
    }
    out
}

/// Batches the two halves of the ciphertexts.
fn batch_ciphertexts<G: Group>(c1: &[G::Point], c2: &[G::Point], e: G::Scalar) -> (r: Vec<G::Point>)
    requires
        c1@.len() == c2@.len(),
    ensures
        indices::<G>(r@) == batched(
            indices::<G>(c1@),
            indices::<G>(c2@),
            e.value(),
            G::Scalar::modulus(),
        ),
{
    let mut out: Vec<G::Point> = Vec::new();
    let mut i: usize = 0;
    while i < c1.len()
        invariant
            i <= c1@.len() == c2@.len(),
            out@.len() == i,
            forall|j: int|
                0 <= j < i ==> G::index(#[trigger] out@[j]) == md(
                    G::index(c1@[j]) + G::index(c2@[j]) * e.value(),
                    G::Scalar::modulus(),
                ),
        decreases c1@.len() - i,
    {
        proof {
            G::Scalar::modulus_range();
            G::index_range(c1@[i as int]);
            G::index_range(c2@[i as int]);
            e.value_range();
        }
        out.push(G::plus(c1[i], G::times(c2[i], e)));
        i += 1;
    }
    assert(indices::<G>(out@) =~= batched(
        indices::<G>(c1@),
        indices::<G>(c2@),
        e.value(),
        G::Scalar::modulus(),
    ));
    out
}

/// The polynomials of the inputs and of their weights.
fn input_polys<F: Field>(v: &Vec<F>, s_prime: &Vec<F>, wV: &Vec<F>) -> (r: (VecPoly1<F>, VecPoly1<F>))
    requires
        v@.len() == wV@.len(),
    ensures
        r.0.0@ == v@,
        values(r.0.1@) == Seq::new(v@.len(), |i: int| at(values(s_prime@), i)),
        r.1.0@ == wV@,
        values(r.1.1@) == Seq::new(v@.len(), |i: int| 0int),
{
    let k: usize = v.len();
    let mut s: Vec<F> = Vec::new();
    let mut i: usize = 0;
    while i < k
        invariant
            i <= k,
            s@.len() == i,
            forall|j: int| 0 <= j < i ==> (#[trigger] s@[j]).value() == at(values(s_prime@), j),
        decreases k - i,
    {
        if i < s_prime.len() {
            s.push(s_prime[i]);
        } else {
            s.push(F::zero());
        }
        i += 1;
    }
    let zeros: Vec<F> = zero_vec(k);
    assert(values(s@) =~= Seq::new(v@.len(), |i: int| at(values(s_prime@), i)));
    assert(values(zeros@) =~= Seq::new(v@.len(), |i: int| 0int));
    (VecPoly1(copy_slice(v), s), VecPoly1(copy_slice(wV), zeros))
}

/// The inner product with a zero vector is zero.
proof fn lemma_dot_zero(a: Seq<int>, z: Seq<int>)
    requires
        forall|i: int| 0 <= i < a.len() ==> #[trigger] z[i] == 0,
    ensures
        dot(a, z) == 0,
{
    let f = |i: int| a[i] * z[i];
    assert forall|i: int| 0 <= i < a.len() implies #[trigger] f(i) == 0 by {
        assert(z[i] == 0);
        let x = a[i];
        assert(x * 0 == 0);
    }
    lemma_sum_zero(a.len() as int, f);
}

/// The value of the inner product of the inputs and their weights.
proof fn lemma_tc_value(t0: int, t1: int, a: int, b: int, x: int, q: int)
    requires
        q > 1,
        t0 == md(a, q),
        t1 == md(b, q),
    ensures
        md(t0 + x * (t1 + x * 0), q) == md(a + x * b, q),
{
    assert(x * 0 == 0);
    lemma_md_range(a, q);
    lemma_md_range(b, q);
    crate::modular::lemma_eqm_mul(x, x, t1, b, q);
    crate::modular::lemma_eqm_add(t0, a, x * t1, x * b, q);
}

impl<'a, 'b, G: Group> ProverCS<'a, 'b, G> {
    /// All that the prover needs is there: generators for the multipliers and
    /// ciphertexts, and values for all variables. With fewer generators than
    /// inputs it needs nothing, since it only refuses.
    pub open spec fn can_prove(
        &self,
        c1_len: int,
        c2_len: int,
        k_fold: int,
        num_rounds: int,
    ) -> bool {
        self.bp_gens.gens_capacity >= self.secrets.v@.len() ==> {
            &&& self.wf()
            &&& self.bp_gens.wf()
            &&& self.bp_gens.party_capacity >= 1
            &&& self.secrets.a_L@.len() <= self.secrets.v@.len()
            &&& constraints_in_range(all_terms(self.constraints@), self.secrets.a_L@.len() as int, self.secrets.v@.len() as int)
            &&& c1_len == c2_len
            &&& c1_len <= self.bp_gens.gens_capacity
            &&& k_fold > 1
            &&& 2 * k_fold <= usize::MAX
            &&& self.secrets.v@.len() + k_fold <= usize::MAX
            &&& self.secrets.v@.len() > 0 || num_rounds == 0
        }
    }

    /// Consumes the constraint system and produces a proof, with given random
    /// scalars.
    pub fn prove_with(
        self,
        C1_prime: &[G::Point],
        C2_prime: &[G::Point],
        r_prime: G::Scalar,
        k_fold: usize,
        num_rounds: usize,
        blindings: &ProverBlindings<G::Scalar>,
    ) -> (r: Result<R1CSProof<G>, R1CSError>)
        requires
            self.can_prove(
                C1_prime@.len() as int,
                C2_prime@.len() as int,
                k_fold as int,
                num_rounds as int,
            ),
            self.bp_gens.gens_capacity >= self.secrets.v@.len() ==> blindings.fits(
                self.secrets.a_L@.len() as int,
                C1_prime@.len() as int,
            ),
        ensures
            self.bp_gens.gens_capacity < self.secrets.v@.len() ==> {
                &&& r == Err::<R1CSProof<G>, R1CSError>(R1CSError::InvalidGeneratorsLength)
                &&& transcript_log(*final(self.transcript)) == transcript_log(*old(self.transcript))
            },
            self.bp_gens.gens_capacity >= self.secrets.v@.len() ==> r is Ok,
            r matches Ok(p) ==> {
                &&& honest(
                    p,
                    self.witness(),
                    blindings@,
                    gens_view(*self.bp_gens, *self.pc_gens),
                    Ciphertexts {
                        c1: indices::<G>(C1_prime@),
                        c2: indices::<G>(C2_prime@),
                        r_prime: r_prime.value(),
                    },
                    transcript_log(*old(self.transcript)),
                    k_fold as int,
                    num_rounds as int,
                )
                &&& transcript_log(*final(self.transcript)) == p.log_end(
                    transcript_log(*old(self.transcript)),
                    self.secrets.v@.len() as int,
                )
            },
    {
        let n: usize = self.secrets.a_L.len();
        let k: usize = self.secrets.v.len();
        if self.bp_gens.gens_capacity < k {
            return Err(R1CSError::InvalidGeneratorsLength);
        }
        let ghost q = G::Scalar::modulus();
        let ghost log0 = transcript_log(*self.transcript);
        let ghost w = self.witness();
        let ghost b = blindings@;
        let ghost gv = gens_view(*self.bp_gens, *self.pc_gens);
        let ghost ct = Ciphertexts {
            c1: indices::<G>(C1_prime@),
            c2: indices::<G>(C2_prime@),
            r_prime: r_prime.value(),
        };
        proof {
            G::Scalar::modulus_range();
            lemma_md_small(0, q);
        }
        let gens = self.bp_gens.share(0);

        // 1. Circuit commitment
        let G_n = gens.G(n);
        let H_n = gens.H(n);
        let none_s: Vec<G::Scalar> = Vec::new();
        let none_p: Vec<G::Point> = Vec::new();
        let B_blinding = self.pc_gens.B_blinding;
        let A_I = G::encode(
            blinded_msm::<G>(blindings.i_blinding, B_blinding, &self.secrets.a_L, &G_n, &self.secrets.a_R, &H_n),
        );
        let A_O = G::encode(
            blinded_msm::<G>(blindings.o_blinding, B_blinding, &self.secrets.a_O, &G_n, &none_s, &none_p),
        );
        let S = G::encode(
            blinded_msm::<G>(blindings.s_blinding, B_blinding, &blindings.s_L, &G_n, &blindings.s_R, &H_n),
        );
        proof {
            lemma_dot_prefix(w.a_L, indices::<G>(G_n@), gv.g);
            lemma_dot_prefix(w.a_O, indices::<G>(G_n@), gv.g);
            lemma_dot_prefix(b.s_L, indices::<G>(G_n@), gv.g);
            lemma_dot_prefix(w.a_R, indices::<G>(H_n@), gv.h);
            lemma_dot_prefix(b.s_R, indices::<G>(H_n@), gv.h);
        }
        <Transcript as TranscriptProtocol<G>>::commit_point(self.transcript, "A_I", &A_I);
        <Transcript as TranscriptProtocol<G>>::commit_point(self.transcript, "A_O", &A_O);
        <Transcript as TranscriptProtocol<G>>::commit_point(self.transcript, "S", &S);

        // 2. Polynomial construction
        let y = <Transcript as TranscriptProtocol<G>>::challenge_scalar(self.transcript, "y");
        let z = <Transcript as TranscriptProtocol<G>>::challenge_scalar(self.transcript, "z");
        let (wL, wR, wO, wV) = self.flattened_constraints(&z);
        let y_inv = y.invert();
        let exp_y_inv = exp_vec(y_inv, k);
        let exp_y = exp_vec(y, k);
        proof {
            assert(values(exp_y@).len() == k);
            assert(values(exp_y_inv@).len() == k);
            assert(values(wV@).len() == k);
        }
        let (l_poly, r_poly) = build_polys(
            &self.secrets.a_L,
            &self.secrets.a_R,
            &self.secrets.a_O,
            blindings,
            &wL,
            &wR,
            &wO,
            &exp_y,
            &exp_y_inv,
            Ghost(w),
            Ghost(y.value()),
            Ghost(z.value()),
        );
        let ghost pl = polys(w, b, y.value(), z.value(), q);
        let t_poly = VecPoly3::special_inner_product(&l_poly, &r_poly);

        // 3. Commitments to the coefficients of t
        let t_2 = inner_product(&wV, &self.secrets.v);
        let pc = self.pc_gens;
        let T_1 = G::encode(pc.commit(t_poly.t1, blindings.t_1_blinding));
        let T_2 = G::encode(pc.commit(t_2, blindings.t_2_blinding));
        let T_3 = G::encode(pc.commit(t_poly.t3, blindings.t_3_blinding));
        let T_4 = G::encode(pc.commit(t_poly.t4, blindings.t_4_blinding));
        let T_5 = G::encode(pc.commit(t_poly.t5, blindings.t_5_blinding));
        let T_6 = G::encode(pc.commit(t_poly.t6, blindings.t_6_blinding));
        <Transcript as TranscriptProtocol<G>>::commit_point(self.transcript, "T_1", &T_1);
        <Transcript as TranscriptProtocol<G>>::commit_point(self.transcript, "T_3", &T_3);
        <Transcript as TranscriptProtocol<G>>::commit_point(self.transcript, "T_4", &T_4);
        <Transcript as TranscriptProtocol<G>>::commit_point(self.transcript, "T_5", &T_5);
        <Transcript as TranscriptProtocol<G>>::commit_point(self.transcript, "T_6", &T_6);
        <Transcript as TranscriptProtocol<G>>::commit_point(self.transcript, "T_2", &T_2);
        let x = <Transcript as TranscriptProtocol<G>>::challenge_scalar(self.transcript, "x");
        let t_x = t_poly.eval(x);
        let t_x_blinding = Poly6 {
            t1: blindings.t_1_blinding,
            t2: blindings.t_2_blinding,
            t3: blindings.t_3_blinding,
            t4: blindings.t_4_blinding,
            t5: blindings.t_5_blinding,
            t6: blindings.t_6_blinding,
        }.eval(x);
        let (l_vec, r_vec) = eval_polys(
            &l_poly,
            &r_poly,
            x,
            &exp_y,
            Ghost(w),
            Ghost(pl),
            Ghost(y.value()),
        );
        proof {
            x.value_range();
            blindings.i_blinding.value_range();
            blindings.o_blinding.value_range();
            blindings.s_blinding.value_range();
        }
        let e_blinding = x.times(
            blindings.i_blinding.plus(x.times(blindings.o_blinding.plus(x.times(blindings.s_blinding)))),
        );
        <Transcript as TranscriptProtocol<G>>::commit_scalar(self.transcript, "t_x", &t_x);
        <Transcript as TranscriptProtocol<G>>::commit_scalar(self.transcript, "t_x_blinding", &t_x_blinding);
        <Transcript as TranscriptProtocol<G>>::commit_scalar(self.transcript, "e_blinding", &e_blinding);

        // 4. Consistency of the inputs with the ciphertexts
        let k_original: usize = C1_prime.len();
        let G_k = gens.G(k_original);
        let S_prime = G::encode(
            blinded_msm::<G>(
                blindings.s_prime_blinding,
                B_blinding,
                &blindings.s_L_prime,
                &G_k,
                &none_s,
                &none_p,
            ),
        );
        let S1_prime = G::encode(
            blinded_msm::<G>(blindings.rnd, pc.B, &blindings.s_L_prime, C1_prime, &none_s, &none_p),
        );
        let S2_prime = G::encode(
            blinded_msm::<G>(blindings.rnd, pc.F, &blindings.s_L_prime, C2_prime, &none_s, &none_p),
        );
        proof {
            lemma_dot_prefix(b.s_L_prime, indices::<G>(G_k@), gv.g);
        }
        let (lc_poly, rc_poly) = input_polys(&self.secrets.v, &blindings.s_L_prime, &wV);
        let ghost s_pad = Seq::new(w.v.len(), |i: int| at(b.s_L_prime, i));
        let ghost wv = weights_input(w.constraints, k as int, z.value(), q);
        proof {
            assert(values(lc_poly.1@).len() == k);
            assert(values(rc_poly.1@).len() == k);
            lemma_dot_zero(values(lc_poly.0@), values(rc_poly.1@));
            lemma_dot_zero(values(lc_poly.1@), values(rc_poly.1@));
        }
        let tc_poly = lc_poly.inner_product(&rc_poly);
        let T_1_prime = G::encode(pc.commit(tc_poly.1, blindings.t_1_prime_blinding));
        let tc_bl_poly = Poly2(blindings.t_2_blinding, blindings.t_1_prime_blinding, G::Scalar::zero());
        <Transcript as TranscriptProtocol<G>>::commit_point(self.transcript, "S_prime", &S_prime);
        <Transcript as TranscriptProtocol<G>>::commit_point(self.transcript, "T_1_prime", &T_1_prime);
        <Transcript as TranscriptProtocol<G>>::commit_point(self.transcript, "S1_prime", &S1_prime);
        <Transcript as TranscriptProtocol<G>>::commit_point(self.transcript, "S2_prime", &S2_prime);
        let x_prime = <Transcript as TranscriptProtocol<G>>::challenge_scalar(self.transcript, "x_prime");
        let tc_x = tc_poly.eval(x_prime);
        let tc_x_blinding = tc_bl_poly.eval(x_prime);
        proof {
            lemma_tc_value(
                tc_poly.0.value(),
                tc_poly.1.value(),
                dot(w.v, wv),
                dot(s_pad, wv),
                x_prime.value(),
                q,
            );
            self.secrets.v_blinding.value_range();
            blindings.s_prime_blinding.value_range();
            blindings.rnd.value_range();
            x_prime.value_range();
            r_prime.value_range();
            let xp = x_prime.value();
            assert(xp * 0 == 0);
        }
        let ec_blinding = self.secrets.v_blinding.plus(blindings.s_prime_blinding.times(x_prime));
        let r_blinding = r_prime.plus(blindings.rnd.times(x_prime));
        <Transcript as TranscriptProtocol<G>>::commit_scalar(self.transcript, "tc_x", &tc_x);
        <Transcript as TranscriptProtocol<G>>::commit_scalar(self.transcript, "tc_x_blinding", &tc_x_blinding);
        <Transcript as TranscriptProtocol<G>>::commit_scalar(self.transcript, "ec_blinding", &ec_blinding);
        <Transcript as TranscriptProtocol<G>>::commit_scalar(self.transcript, "r_blinding", &r_blinding);
        let lc_vec = lc_poly.eval(x_prime);
        let rc_vec = rc_poly.eval(x_prime);
        proof {
            let lcv = crate::r1cs::honest::lc_vec(w, b, x_prime.value(), q);
            assert forall|i: int| 0 <= i < k implies (#[trigger] lc_vec@[i]).value() == lcv[i] by {
                assert(lc_poly.1@[i].value() == values(lc_poly.1@)[i]);
            }
            assert(values(lc_vec@) =~= lcv);
            assert forall|i: int| 0 <= i < k implies (#[trigger] rc_vec@[i]).value() == wv[i] by {
                assert(rc_poly.1@[i].value() == values(rc_poly.1@)[i]);
                let xp = x_prime.value();
                assert(0 * xp == 0);
                wV@[i].value_range();
                assert(wV@[i].value() == values(wV@)[i]);
            }
            assert(values(rc_vec@) =~= wv);
        }

        // 5. Aggregation
        proof {
            assert(values(l_vec@).len() == k);
            assert(values(r_vec@).len() == k);
        }
        let t_cross = inner_product(&l_vec, &rc_vec).plus(inner_product(&lc_vec, &r_vec));
        <Transcript as TranscriptProtocol<G>>::commit_scalar(self.transcript, "t_cross", &t_cross);
        let x_ipp = <Transcript as TranscriptProtocol<G>>::challenge_scalar(self.transcript, "x_ipp");
        let l_agg = add_scaled(&l_vec, x_ipp, &lc_vec);
        let r_agg = add_scaled(&r_vec, x_ipp, &rc_vec);
        let w_agg = <Transcript as TranscriptProtocol<G>>::challenge_scalar(self.transcript, "w_agg");
        let Q_agg = G::times(pc.B, w_agg);
        proof {
            G::index_range(pc.B);
            w_agg.value_range();
        }
        let H_k = gens.H(k);
        let H_prime = scale_points::<G>(&H_k, &exp_y_inv);
        let G_k_full = gens.G(k);
        proof {
            assert(values(l_agg@).len() == k);
            assert(values(r_agg@).len() == k);
            assert(indices::<G>(G_k_full@) =~= gv.g.take(k as int));
            assert forall|i: int| 0 <= i < k implies G::index(#[trigger] H_prime@[i]) == h_prime(
                gv.h,
                k as int,
                y.value(),
                q,
            )[i] by {
                assert(exp_y_inv@[i].value() == values(exp_y_inv@)[i]);
            }
            assert(indices::<G>(H_prime@) =~= h_prime(gv.h, k as int, y.value(), q));
        }

        // 6. Inner product argument
        let ghost log_ipp = transcript_log(*self.transcript);
        let ipp_proof = prove_ipa::<G>::create(
            self.transcript,
            k_fold,
            &G_k_full,
            &H_prime,
            Q_agg,
            &l_agg,
            &r_agg,
            num_rounds,
        );

        // 7. Argument on the ciphertexts
        let ghost log_batch = transcript_log(*self.transcript);
        let chall_batched_ecp = <Transcript as TranscriptProtocol<G>>::challenge_scalar(
            self.transcript,
            "chall_batched_ecp",
        );
        let ghost log_ecp = transcript_log(*self.transcript);
        let C_agg = batch_ciphertexts::<G>(C1_prime, C2_prime, chall_batched_ecp);
        let ecp_batched = prove_ecp::<G>::create(
            self.transcript,
            k_fold,
            &G_k_full,
            &C_agg,
            &lc_vec,
            num_rounds,
        );
        let p = R1CSProof {
            A_I,
            A_O,
            S,
            T_1,
            T_2,
            T_3,
            T_4,
            T_5,
            T_6,
            t_x,
            t_x_blinding,
            e_blinding,
            ipp_proof,
            S_prime,
            T_1_prime,
            S1_prime,
            S2_prime,
            tc_x,
            tc_x_blinding,
            ec_blinding,
            t_cross,
            r_blinding,
            ecp_batched,
        };
        proof {
            assert(p.log_ipp(log0) == log_ipp);
            let c = p.challenges(log0, k as int);
            let si = ipa_start(w, b, c, gv, log_ipp, k_fold as int, q);
            let qi = md(gv.b * c.w_agg, q);
            assert(values(l_agg@) =~= si.a);
            assert(values(r_agg@) =~= si.b);
            assert(p.ipp_proof.proves(si, qi, k_fold as int, num_rounds as int));
            crate::ipa_laws::lemma_ipa_logs_agree::<G>(
                p.ipp_proof,
                si,
                qi,
                k_fold as int,
                num_rounds as int,
                num_rounds as int,
            );
            assert(p.log_batch(log0, k as int) == log_batch);
            assert(p.log_ecp(log0, k as int) == log_ecp);
            assert(c.batch == chall_batched_ecp.value());
            let se = ecp_start(w, b, c, gv, ct, log_ecp, k_fold as int, q);
            assert(p.ecp_batched.proves(se, k_fold as int, num_rounds as int));
            crate::ecp_laws::lemma_ecp_logs_agree::<G>(
                p.ecp_batched,
                se,
                k_fold as int,
                num_rounds as int,
                num_rounds as int,
            );
            assert(honest_circuit(p, w, b, gv));
            assert(honest_polynomial(p, w, b, c, gv));
            assert(honest_consistency(p, w, b, c, gv, ct));
            assert(honest_arguments(p, w, b, c, gv, ct, log0, k_fold as int, num_rounds as int));
        }
        Ok(p)
    }
}

} // verus!
