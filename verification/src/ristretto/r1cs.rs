//! Proving and verifying constraint systems over Ristretto255.

use merlin::{Transcript, TranscriptRng, TranscriptRngBuilder};
use vstd::prelude::*;
use crate::bytes::{le_bytes, le_value, lemma_le_value_of_bytes, lemma_pow_32};
use crate::errors::R1CSError;
use crate::generators::{GensView, gens_view};
use crate::group::{Field, Group, encodes, indices, values};
use crate::modular::md;
use crate::r1cs::honest::{Blindings, Ciphertexts, honest};
use crate::r1cs::linear_combination::Variable;
use crate::r1cs::prove::{Prover, ProverBlindings, ProverCS};
use crate::r1cs::r1cs_proof::R1CSProof;
use crate::r1cs::verify::{Verifier, VerifierCS, replayable, verified_log};
use crate::r1cs::witness::Witness;
use crate::ristretto::point::{CompressedRistretto, RistrettoPoint};
use crate::ristretto::scalar::{Scalar, lemma_order, order};
use crate::sums::dot;
use crate::transcript::{Log, append, transcript_log};

verus! {

#[verifier::external_type_specification]
#[verifier::external_body]
pub struct ExTranscriptRngBuilder(merlin::TranscriptRngBuilder);

#[verifier::external_type_specification]
#[verifier::external_body]
pub struct ExTranscriptRng(merlin::TranscriptRng);

/// What has gone into a `merlin::TranscriptRngBuilder`: the operations of the
/// transcript that it comes from, and the secrets with their labels.
pub uninterp spec fn builder_inputs(b: merlin::TranscriptRngBuilder) -> (
    Seq<(Seq<char>, Seq<u8>, nat)>,
    Seq<(Seq<char>, Seq<u8>)>,
);

/// What has gone into a `merlin::TranscriptRng` when it was made, besides the
/// randomness of the system.
pub uninterp spec fn rng_inputs(rng: merlin::TranscriptRng) -> (
    Seq<(Seq<char>, Seq<u8>, nat)>,
    Seq<(Seq<char>, Seq<u8>)>,
);

/// `merlin::Transcript::build_rng` clones the state of the transcript. No
/// secret is in it yet.
#[verifier::external_body]
fn build_rng(t: &Transcript) -> (r: TranscriptRngBuilder)
    ensures
        builder_inputs(r) == (transcript_log(*t), Seq::<(Seq<char>, Seq<u8>)>::empty()),
{
    t.build_rng()
}

/// `merlin::TranscriptRngBuilder::rekey_with_witness_bytes` mixes in a secret
/// with its label. It panics on secrets whose length does not fit into 32 bits.
#[verifier::external_body]
fn rekey_with_witness_bytes(
    builder: TranscriptRngBuilder,
    label: &'static str,
    witness: &[u8],
) -> (r: TranscriptRngBuilder)
    requires
        witness@.len() <= u32::MAX,
    ensures
        builder_inputs(r) == (builder_inputs(builder).0, builder_inputs(builder).1.push((label@, witness@))),
{
    builder.rekey_with_witness_bytes(label.as_bytes(), witness)
}

/// `merlin::TranscriptRngBuilder::finalize` mixes in randomness of the system
/// and nothing else.
#[verifier::external_body]
fn finalize_rng(builder: TranscriptRngBuilder) -> (r: TranscriptRng)
    ensures
        rng_inputs(r) == builder_inputs(builder),
{
    builder.finalize(&mut rand::thread_rng())
}

/// The generator was made from a transcript with the given log and the
/// blinding factor of the inputs.
pub open spec fn prover_rng(rng: TranscriptRng, log: Log, v_blinding: int) -> bool {
    rng_inputs(rng) == (log, seq![("v_blinding"@, le_bytes(v_blinding, 32))])
}

/// The generator was made from a transcript with the given log and no secret.
pub open spec fn public_rng(rng: TranscriptRng, log: Log) -> bool {
    rng_inputs(rng) == (log, Seq::<(Seq<char>, Seq<u8>)>::empty())
}

/// With the scalars that a generator gives which was made from the transcript
/// and the blinding factor of the inputs, in the order in which they are drawn,
/// `p` is what an honest prover sends.
pub open spec fn honestly_drawn(
    p: R1CSProof<RistrettoPoint>,
    rng: TranscriptRng,
    w: Witness,
    gens: GensView,
    ct: Ciphertexts,
    log: Log,
    k_fold: int,
    rounds: int,
) -> bool {
    &&& prover_rng(rng, log, w.v_blinding)
    &&& honest(p, w, drawn_blindings(rng, w.a_L.len(), ct.c1.len()), gens, ct, log, k_fold, rounds)
}

/// The scalar that `Scalar::random` of curve25519-dalek draws from a
/// `merlin::TranscriptRng` after `i` others.
pub uninterp spec fn upcoming_scalar(rng: merlin::TranscriptRng, i: nat) -> int;

/// `Scalar::random` of curve25519-dalek takes 64 bytes from the generator,
/// which are a function of its state, and reduces them modulo the order; the
/// encoding is canonical, and the generator goes on to the next scalar. What
/// the scalars are is left open: the state holds randomness of the system.
#[verifier::external_body]
fn random_bytes(rng: &mut TranscriptRng) -> (r: [u8; 32])
    ensures
        0 <= le_value(r@) < order(),
        le_value(r@) == upcoming_scalar(*old(rng), 0),
        forall|i: nat| #[trigger] upcoming_scalar(*final(rng), i) == upcoming_scalar(*old(rng), i + 1),
{
    curve25519_dalek::scalar::Scalar::random(rng).to_bytes()
}

/// Draws the next scalar of the generator.
fn random_scalar(rng: &mut TranscriptRng) -> (r: Scalar)
    ensures
        r.value() == upcoming_scalar(*old(rng), 0),
        forall|i: nat| #[trigger] upcoming_scalar(*final(rng), i) == upcoming_scalar(*old(rng), i + 1),
{
    Scalar::of(random_bytes(rng))
}

/// The generator goes on where another one is after `n` scalars.
spec fn continues(rng: TranscriptRng, start: TranscriptRng, n: nat) -> bool {
    forall|i: nat| #[trigger] upcoming_scalar(rng, i) == upcoming_scalar(start, i + n)
}

/// Draws scalar number `n` of what started as `start`.
fn draw(rng: &mut TranscriptRng, Ghost(start): Ghost<TranscriptRng>, Ghost(n): Ghost<nat>) -> (r: Scalar)
    requires
        continues(*old(rng), start, n),
    ensures
        r.value() == upcoming_scalar(start, n),
        continues(*final(rng), start, n + 1),
{
    let r = random_scalar(rng);
    proof {
        assert(upcoming_scalar(*old(rng), 0) == upcoming_scalar(start, 0 + n));
        assert forall|i: nat| #[trigger] upcoming_scalar(*rng, i) == upcoming_scalar(start, i + (n + 1)) by {
            assert(upcoming_scalar(*old(rng), i + 1) == upcoming_scalar(start, (i + 1) + n));
        }
    }
    r
}

/// The `n` scalars that come after `from` others, with `step` from one to the
/// next.
pub open spec fn upcoming_scalars(rng: TranscriptRng, from: nat, step: nat, n: nat) -> Seq<int> {
    Seq::new(n, |i: int| upcoming_scalar(rng, (from + step * i) as nat))
}

/// The random scalars of a prover with `n` multipliers and `k` ciphertexts, in
/// the order in which they are drawn.
pub open spec fn drawn_blindings(rng: TranscriptRng, n: nat, k: nat) -> Blindings {
    let t = 3 + 2 * n;
    Blindings {
        i_blinding: upcoming_scalar(rng, 0),
        o_blinding: upcoming_scalar(rng, 1),
        s_blinding: upcoming_scalar(rng, 2),
        s_L: upcoming_scalars(rng, 3, 2, n),
        s_R: upcoming_scalars(rng, 4, 2, n),
        t_1_blinding: upcoming_scalar(rng, t),
        t_3_blinding: upcoming_scalar(rng, t + 1),
        t_4_blinding: upcoming_scalar(rng, t + 2),
        t_5_blinding: upcoming_scalar(rng, t + 3),
        t_6_blinding: upcoming_scalar(rng, t + 4),
        t_2_blinding: upcoming_scalar(rng, t + 5),
        s_prime_blinding: upcoming_scalar(rng, t + 6),
        rnd: upcoming_scalar(rng, t + 7),
        s_L_prime: upcoming_scalars(rng, t + 8, 1, k),
        t_1_prime_blinding: upcoming_scalar(rng, t + 8 + k),
    }
}

/// The random scalars one after the other: those for the circuit, the masks of
/// the left and right inputs in turn, those for the polynomial, and those for
/// the ciphertexts.
pub open spec fn in_turn(b: Blindings) -> Seq<int> {
    seq![b.i_blinding, b.o_blinding, b.s_blinding] + Seq::new(
        2 * b.s_L.len(),
        |i: int|
            if i % 2 == 0 {
                b.s_L[i / 2]
            } else {
                b.s_R[i / 2]
            },
    ) + seq![
        b.t_1_blinding,
        b.t_3_blinding,
        b.t_4_blinding,
        b.t_5_blinding,
        b.t_6_blinding,
        b.t_2_blinding,
        b.s_prime_blinding,
        b.rnd,
    ] + b.s_L_prime + seq![b.t_1_prime_blinding]
}

/// The prover uses every scalar that it draws, and none of them twice.
pub proof fn law_drawn_blindings(rng: TranscriptRng, n: nat, k: nat)
    ensures
        drawn_blindings(rng, n, k).s_L.len() == n,
        drawn_blindings(rng, n, k).s_R.len() == n,
        drawn_blindings(rng, n, k).s_L_prime.len() == k,
        in_turn(drawn_blindings(rng, n, k)) == Seq::new(2 * n + k + 12, |i: int| upcoming_scalar(rng, i as nat)),
{
    let b = drawn_blindings(rng, n, k);
    let (s, t) = (in_turn(b), Seq::new(2 * n + k + 12, |i: int| upcoming_scalar(rng, i as nat)));
    assert(s.len() == t.len());
    assert forall|i: int| 0 <= i < s.len() implies s[i] == t[i] by {
        if 3 <= i < 3 + 2 * n {
            let j = i - 3;
            if j % 2 == 0 {
                assert(b.s_L[j / 2] == upcoming_scalar(rng, (3 + 2 * (j / 2)) as nat));
            } else {
                assert(b.s_R[j / 2] == upcoming_scalar(rng, (4 + 2 * (j / 2)) as nat));
            }
        } else if 11 + 2 * n <= i < 11 + 2 * n + k {
            let j = i - 11 - 2 * n;
            assert(b.s_L_prime[j] == upcoming_scalar(rng, (3 + 2 * n + 8 + j) as nat));
        }
    }
    assert(s =~= t);
}

/// Draws `n` scalars.
fn random_scalars(
    rng: &mut TranscriptRng,
    n: usize,
    Ghost(start): Ghost<TranscriptRng>,
    Ghost(from): Ghost<nat>,
) -> (r: Vec<Scalar>)
    requires
        continues(*old(rng), start, from),
    ensures
        values(r@) == upcoming_scalars(start, from, 1, n as nat),
        continues(*final(rng), start, from + n as nat),
{
    let mut out: Vec<Scalar> = Vec::new();
    let mut i: usize = 0;
    while i < n
        invariant
            i <= n,
            continues(*rng, start, from + i as nat),
            out@.len() == i,
            forall|j: int| 0 <= j < i ==> (#[trigger] out@[j]).value() == upcoming_scalar(start, (from + j) as nat),
        decreases n - i,
    {
        out.push(draw(rng, Ghost(start), Ghost(from + i as nat)));
        i += 1;
    }
    assert(values(out@) =~= upcoming_scalars(start, from, 1, n as nat));
    out
}

/// Draws `n` pairs of scalars.
fn random_pairs(
    rng: &mut TranscriptRng,
    n: usize,
    Ghost(start): Ghost<TranscriptRng>,
    Ghost(from): Ghost<nat>,
) -> (r: (Vec<Scalar>, Vec<Scalar>))
    requires
        continues(*old(rng), start, from),
    ensures
        values(r.0@) == upcoming_scalars(start, from, 2, n as nat),
        values(r.1@) == upcoming_scalars(start, from + 1, 2, n as nat),
        continues(*final(rng), start, from + 2 * n as nat),
{
    let mut left: Vec<Scalar> = Vec::new();
    let mut right: Vec<Scalar> = Vec::new();
    let mut i: usize = 0;
    while i < n
        invariant
            i <= n,
            continues(*rng, start, from + 2 * i as nat),
            left@.len() == i,
            right@.len() == i,
            forall|j: int|
                0 <= j < i ==> (#[trigger] left@[j]).value() == upcoming_scalar(start, (from + 2 * j) as nat),
            forall|j: int|
                0 <= j < i ==> (#[trigger] right@[j]).value() == upcoming_scalar(start, (from + 1 + 2 * j) as nat),
        decreases n - i,
    {
        left.push(draw(rng, Ghost(start), Ghost(from + 2 * i as nat)));
        right.push(draw(rng, Ghost(start), Ghost(from + 1 + 2 * i as nat)));
        i += 1;
    }
    assert(values(left@) =~= upcoming_scalars(start, from, 2, n as nat));
    assert(values(right@) =~= upcoming_scalars(start, from + 1, 2, n as nat));
    (left, right)
}

/// Draws all scalars that a prover with `n` multipliers and `k` ciphertexts
/// needs.
fn random_blindings(rng: &mut TranscriptRng, n: usize, k: usize) -> (r: ProverBlindings<Scalar>)
    ensures
        r.fits(n as int, k as int),
        r@ == drawn_blindings(*old(rng), n as nat, k as nat),
{
    let ghost start = *rng;
    let ghost t = 3 + 2 * n as nat;
    let i_blinding = draw(rng, Ghost(start), Ghost(0));
    let o_blinding = draw(rng, Ghost(start), Ghost(1));
    let s_blinding = draw(rng, Ghost(start), Ghost(2));
    let (s_L, s_R) = random_pairs(rng, n, Ghost(start), Ghost(3));
    let t_1_blinding = draw(rng, Ghost(start), Ghost(t));
    let t_3_blinding = draw(rng, Ghost(start), Ghost(t + 1));
    let t_4_blinding = draw(rng, Ghost(start), Ghost(t + 2));
    let t_5_blinding = draw(rng, Ghost(start), Ghost(t + 3));
    let t_6_blinding = draw(rng, Ghost(start), Ghost(t + 4));
    let t_2_blinding = draw(rng, Ghost(start), Ghost(t + 5));
    let s_prime_blinding = draw(rng, Ghost(start), Ghost(t + 6));
    let rnd = draw(rng, Ghost(start), Ghost(t + 7));
    let s_L_prime = random_scalars(rng, k, Ghost(start), Ghost(t + 8));
    let t_1_prime_blinding = draw(rng, Ghost(start), Ghost(t + 8 + k as nat));
    proof {
        assert(values(s_L@).len() == n && values(s_R@).len() == n && values(s_L_prime@).len() == k);
    }
    ProverBlindings {
        i_blinding,
        o_blinding,
        s_blinding,
        s_L,
        s_R,
        t_1_blinding,
        t_2_blinding,
        t_3_blinding,
        t_4_blinding,
        t_5_blinding,
        t_6_blinding,
        s_prime_blinding,
        rnd,
        s_L_prime,
        t_1_prime_blinding,
    }
}

impl<'a, 'b> Prover<'a, 'b, RistrettoPoint> {
    /// Adds the inputs `v` and commits to the first `k_original` of them.
    ///
    /// Returns the commitment and the variables that stand for the inputs.
    pub fn commit_vec(&mut self, v: &[Scalar], v_blinding: Scalar, k_original: usize) -> (r: (
        CompressedRistretto,
        Vec<Variable>,
    ))
        requires
            old(self).wf(),
            old(self).cs.bp_gens.G_vec@.len() > 0,
            k_original <= v@.len(),
            k_original <= old(self).cs.bp_gens.G_vec@[0]@.len(),
            old(self).m + v@.len() <= usize::MAX,
        ensures
            final(self).wf(),
            final(self).cs.secrets.v@ == old(self).cs.secrets.v@ + v@,
            final(self).cs.secrets.v_blinding == v_blinding,
            final(self).cs.secrets.a_L == old(self).cs.secrets.a_L,
            final(self).cs.secrets.a_R == old(self).cs.secrets.a_R,
            final(self).cs.secrets.a_O == old(self).cs.secrets.a_O,
            final(self).cs.constraints == old(self).cs.constraints,
            final(self).cs.bp_gens == old(self).cs.bp_gens,
            final(self).cs.pc_gens == old(self).cs.pc_gens,
            encodes::<RistrettoPoint>(
                r.0,
                md(
                    v_blinding.value() * RistrettoPoint::index(old(self).cs.pc_gens.B_blinding) + dot(
                        values(v@.take(k_original as int)),
                        indices::<RistrettoPoint>(old(self).cs.bp_gens.G_vec@[0]@),
                    ),
                    order(),
                ),
            ),
            r.1@ == Seq::new(v@.len(), |i: int| Variable::Committed((old(self).m + i) as usize)),
            transcript_log(*final(self).cs.transcript) == append(
                transcript_log(*old(self).cs.transcript),
                "V"@,
                r.0.0@,
            ),
            *final(final(self).cs.transcript) == *final(old(self).cs.transcript),
    {
        self.commit_inputs(v, v_blinding, k_original)
    }
}

impl<'a, 'b> ProverCS<'a, 'b, RistrettoPoint> {
    /// Consumes the constraint system and produces a proof.
    ///
    /// The random scalars come from the transcript, the blinding factor of the
    /// inputs and the randomness of the system.
    pub fn prove(
        self,
        C1_prime: &[RistrettoPoint],
        C2_prime: &[RistrettoPoint],
        r_prime: Scalar,
        k_fold: usize,
        num_rounds: usize,
    ) -> (r: Result<R1CSProof<RistrettoPoint>, R1CSError>)
        requires
            self.can_prove(
                C1_prime@.len() as int,
                C2_prime@.len() as int,
                k_fold as int,
                num_rounds as int,
            ),
        ensures
            self.bp_gens.gens_capacity < self.secrets.v@.len() ==> {
                &&& r == Err::<R1CSProof<RistrettoPoint>, R1CSError>(R1CSError::InvalidGeneratorsLength)
                &&& transcript_log(*final(self.transcript)) == transcript_log(*old(self.transcript))
            },
            self.bp_gens.gens_capacity >= self.secrets.v@.len() ==> r is Ok,
            r matches Ok(p) ==> {
                &&& exists|rng: TranscriptRng| #[trigger]
                    honestly_drawn(
                        p,
                        rng,
                        self.witness(),
                        gens_view(*self.bp_gens, *self.pc_gens),
                        Ciphertexts {
                            c1: indices::<RistrettoPoint>(C1_prime@),
                            c2: indices::<RistrettoPoint>(C2_prime@),
                            r_prime: r_prime.value(),
                        },
                        transcript_log(*old(self.transcript)),
                        k_fold as int,
                        num_rounds as int,
                    )
                &&& transcript_log(*final(self.transcript)) == p.log_end(
                    transcript_log(*old(self.transcript)),
                    self.secrets.v@.len() as int,
                )
            },
    {
        let ghost log = transcript_log(*self.transcript);
        let ghost w = self.witness();
        let builder = build_rng(&*self.transcript);
        let witness = self.secrets.v_blinding.to_bytes();
        let builder = rekey_with_witness_bytes(builder, "v_blinding", witness.as_slice());
        let mut rng = finalize_rng(builder);
        let ghost start = rng;
        let mut blindings = random_blindings(&mut rng, self.secrets.a_L.len(), C1_prime.len());
        let r = self.prove_with(C1_prime, C2_prime, r_prime, k_fold, num_rounds, &blindings);
        proof {
            assert(blindings@ == drawn_blindings(start, w.a_L.len(), C1_prime@.len()));
            assert(rng_inputs(start).1 =~= seq![("v_blinding"@, le_bytes(w.v_blinding, 32))]);
            if r is Ok {
                assert(honestly_drawn(
                    r->Ok_0,
                    start,
                    w,
                    gens_view(*self.bp_gens, *self.pc_gens),
                    Ciphertexts {
                        c1: indices::<RistrettoPoint>(C1_prime@),
                        c2: indices::<RistrettoPoint>(C2_prime@),
                        r_prime: r_prime.value(),
                    },
                    log,
                    k_fold as int,
                    num_rounds as int,
                ));
            }
        }
        blindings.erase();
        r
    }
}

impl<'a, 'b> Verifier<'a, 'b, RistrettoPoint> {
    /// Adds the commitment to `n` inputs.
    ///
    /// Returns the variables that stand for the inputs. The proof is about all
    /// inputs so far.
    pub fn commit_vec(&mut self, commitment: CompressedRistretto, n: usize) -> (r: Vec<Variable>)
        requires
            old(self).m + n <= usize::MAX,
        ensures
            final(self).m == old(self).m + n,
            final(self).cs.num_inputs == old(self).m + n,
            final(self).cs.V@ == old(self).cs.V@.push(commitment),
            final(self).cs.num_vars == old(self).cs.num_vars,
            final(self).cs.constraints == old(self).cs.constraints,
            final(self).cs.bp_gens == old(self).cs.bp_gens,
            final(self).cs.pc_gens == old(self).cs.pc_gens,
            r@ == Seq::new(n as nat, |i: int| Variable::Committed((old(self).m + i) as usize)),
            transcript_log(*final(self).cs.transcript) == append(
                transcript_log(*old(self).cs.transcript),
                "V"@,
                commitment.0@,
            ),
            *final(final(self).cs.transcript) == *final(old(self).cs.transcript),
    {
        let num_inputs: usize = self.m as usize + n;
        self.commit_inputs(commitment, n, num_inputs)
    }
}

impl<'a, 'b> VerifierCS<'a, 'b, RistrettoPoint> {
    /// Consumes the constraint system and verifies the proof.
    ///
    /// The weight for the equations comes from the transcript, when the proof
    /// has been read as far as the inner product argument, and the randomness
    /// of the system.
    pub fn verify(
        self,
        proof: &R1CSProof<RistrettoPoint>,
        C1_prime: &[RistrettoPoint],
        C2_prime: &[RistrettoPoint],
        C: &[RistrettoPoint],
    ) -> (res: Result<(), R1CSError>)
        requires
            self.can_verify(
                *proof,
                C1_prime@.len() as int,
                C2_prime@.len() as int,
                C@.len() as int,
            ),
        ensures
            self.bp_gens.gens_capacity < self.num_inputs ==> {
                &&& res == Err::<(), R1CSError>(R1CSError::InvalidGeneratorsLength)
                &&& transcript_log(*final(self.transcript)) == transcript_log(*old(self.transcript))
            },
            self.bp_gens.gens_capacity >= self.num_inputs ==> {
                &&& !replayable(*proof, self.num_inputs as int) ==> res == Err::<(), R1CSError>(
                    R1CSError::VerificationError,
                )
                &&& replayable(*proof, self.num_inputs as int) ==> exists|rng: TranscriptRng|
                    {
                        &&& public_rng(
                            rng,
                            proof.log_batch(transcript_log(*old(self.transcript)), self.num_inputs as int),
                        )
                        &&& res == if #[trigger] self.accepts(
                            *proof,
                            C1_prime@,
                            C2_prime@,
                            C@,
                            transcript_log(*old(self.transcript)),
                            upcoming_scalar(rng, 0),
                        ) {
                            Ok::<(), R1CSError>(())
                        } else {
                            Err(R1CSError::VerificationError)
                        }
                    }
                &&& transcript_log(*final(self.transcript)) == verified_log(
                    *proof,
                    transcript_log(*old(self.transcript)),
                    self.num_inputs as int,
                )
            },
    {
        let ghost log = transcript_log(*self.transcript);
        let mut cs = self;
        match cs.replay(proof) {
            Err(e) => Err(e),
            Ok(replay) => {
                let mut rng = finalize_rng(build_rng(&*cs.transcript));
                let ghost start = rng;
                let r = random_scalar(&mut rng);
                proof {
                    let weight = upcoming_scalar(start, 0);
                    assert(public_rng(start, proof.log_batch(log, self.num_inputs as int)));
                    assert(self.accepts(*proof, C1_prime@, C2_prime@, C@, log, weight) == cs.accepts(
                        *proof,
                        C1_prime@,
                        C2_prime@,
                        C@,
                        log,
                        weight,
                    ));
                }
                cs.conclude(replay, proof, C1_prime, C2_prime, C, r)
            },
        }
    }
}

/// The randomness of a prover depends on the transcript and on the blinding
/// factor of the inputs: a generator made from others is another one.
pub proof fn law_prover_rng(rng: TranscriptRng, log: Log, v_blinding: int, other_log: Log, other: int)
    requires
        prover_rng(rng, log, v_blinding),
        0 <= v_blinding < order(),
        0 <= other < order(),
    ensures
        rng_inputs(rng).0 == log,
        rng_inputs(rng).1.len() == 1,
        le_value(rng_inputs(rng).1[0].1) == v_blinding,
        prover_rng(rng, other_log, other) ==> log == other_log && v_blinding == other,
        !public_rng(rng, log),
        forall|r: TranscriptRng| #[trigger] public_rng(r, log) ==> rng_inputs(r).0 == log,
{
    lemma_order();
    lemma_pow_32();
    lemma_le_value_of_bytes(v_blinding, 32);
    lemma_le_value_of_bytes(other, 32);
    let secrets = seq![("v_blinding"@, le_bytes(v_blinding, 32))];
    assert(secrets[0].1 == le_bytes(v_blinding, 32));
    if prover_rng(rng, other_log, other) {
        let others = seq![("v_blinding"@, le_bytes(other, 32))];
        assert(others[0].1 == le_bytes(other, 32));
    }
}

/// An honest prover blinds with what its generator gives, each scalar once.
pub proof fn law_honestly_drawn(
    p: R1CSProof<RistrettoPoint>,
    rng: TranscriptRng,
    w: Witness,
    gens: GensView,
    ct: Ciphertexts,
    log: Log,
    k_fold: int,
    rounds: int,
)
    requires
        honestly_drawn(p, rng, w, gens, ct, log, k_fold, rounds),
    ensures
        prover_rng(rng, log, w.v_blinding),
        exists|b: Blindings| #[trigger]
            honest(p, w, b, gens, ct, log, k_fold, rounds) && in_turn(b) == Seq::new(
                2 * w.a_L.len() + ct.c1.len() + 12,
                |i: int| upcoming_scalar(rng, i as nat),
            ),
{
    law_drawn_blindings(rng, w.a_L.len(), ct.c1.len());
    let b = drawn_blindings(rng, w.a_L.len(), ct.c1.len());
    assert(honest(p, w, b, gens, ct, log, k_fold, rounds));
}

} // verus!
