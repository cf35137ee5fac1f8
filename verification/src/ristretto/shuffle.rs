//! Proofs of shuffles over Ristretto255.

use merlin::{Transcript, TranscriptRng};
use vstd::prelude::*;
use crate::errors::R1CSError;
use crate::generators::{BulletproofGens, GensView, PedersenGens, gens_view};
use crate::group::{Field, Group, encodes, indices, values};
use crate::modular::md;
use crate::ristretto::point::{CompressedRistretto, RistrettoPoint};
use crate::ristretto::r1cs::{drawn_blindings, honestly_drawn, prover_rng, public_rng, upcoming_scalar};
use crate::ristretto::scalar::Scalar;
use crate::r1cs::equations::Statement;
use crate::r1cs::honest::Ciphertexts;
use crate::r1cs::r1cs_proof::R1CSProof;
use crate::r1cs::verify::replayable;
use crate::shuffle::{
    can_check, can_shuffle, gates, set_up_prover, set_up_verifier, shuffle_accepts, shuffle_log,
    shuffle_proved_with,
};
use crate::shuffle_laws::lemma_shuffle_shape;
use crate::sums::dot;
use crate::transcript::{Log, transcript_log};

verus! {

/// With the scalars that a generator gives which was made from the transcript
/// and the blinding factor, in the order in which they are drawn, `p` is what an
/// honest prover sends of the shuffle of `input` into `output`.
pub open spec fn shuffle_drawn(
    p: R1CSProof<RistrettoPoint>,
    v: CompressedRistretto,
    input: Seq<int>,
    output: Seq<int>,
    v_blinding: int,
    gens: GensView,
    ct: Ciphertexts,
    log: Log,
    k_fold: int,
    rounds: int,
) -> bool {
    let n = gates(ct.c1.len() as int, input.len() as int);
    exists|rng: TranscriptRng|
        {
            &&& prover_rng(rng, shuffle_log::<RistrettoPoint>(log, output.len(), v), v_blinding)
            &&& #[trigger] shuffle_proved_with::<RistrettoPoint>(
                p,
                v,
                input,
                output,
                v_blinding,
                drawn_blindings(rng, n, ct.c1.len()),
                gens,
                ct,
                log,
                k_fold,
                rounds,
            )
        }
}

/// Proves and verifies shuffles.
pub struct KShuffleGadget;

impl KShuffleGadget {
    /// Proves that `output` is a permutation of `input`, with as many scalars
    /// as there are ciphertexts and then zeros.
    ///
    /// Returns the proof and the commitment to `output`, of which as many scalars are
    /// committed to as there are ciphertexts.
    pub fn prove(
        pc_gens: &PedersenGens<RistrettoPoint>,
        bp_gens: &BulletproofGens<RistrettoPoint>,
        transcript: Transcript,
        input: &[Scalar],
        output: &[Scalar],
        c1_prime: &[RistrettoPoint],
        c2_prime: &[RistrettoPoint],
        r_prime: Scalar,
        k_fold: usize,
        num_rounds: usize,
        v_blinding: Scalar,
    ) -> (r: Result<(R1CSProof<RistrettoPoint>, CompressedRistretto), R1CSError>)
        requires
            input@.len() > 1 ==> {
                &&& can_shuffle(
                    *bp_gens,
                    input@.len() as int,
                    output@.len() as int,
                    c1_prime@.len() as int,
                    c2_prime@.len() as int,
                    k_fold as int,
                )
            },
        ensures
            input@.len() <= 1 ==> r == Err::<(R1CSProof<RistrettoPoint>, CompressedRistretto), R1CSError>(
                R1CSError::InputLengthError,
            ),
            1 < input@.len() && bp_gens.gens_capacity < input@.len() ==> r == Err::<
                (R1CSProof<RistrettoPoint>, CompressedRistretto),
                R1CSError,
            >(R1CSError::InvalidGeneratorsLength),
            1 < input@.len() <= bp_gens.gens_capacity ==> r is Ok,
            r matches Ok((p, commitment)) ==> {
                let gens = gens_view(*bp_gens, *pc_gens);
                let log = transcript_log(transcript);
                &&& encodes::<RistrettoPoint>(
                    commitment,
                    md(
                        v_blinding.value() * gens.b_blinding + dot(values(output@).take(c1_prime@.len() as int), gens.g),
                        Scalar::modulus(),
                    ),
                )
                &&& shuffle_drawn(
                    p,
                    commitment,
                    values(input@),
                    values(output@),
                    v_blinding.value(),
                    gens,
                    Ciphertexts {
                        c1: indices::<RistrettoPoint>(c1_prime@),
                        c2: indices::<RistrettoPoint>(c2_prime@),
                        r_prime: r_prime.value(),
                    },
                    log,
                    k_fold as int,
                    num_rounds as int,
                )
            },
    {
        let k: usize = input.len();
        let k_original: usize = c1_prime.len();
        if k <= 1 {
            return Err(R1CSError::InputLengthError);
        }
        let ghost log = transcript_log(transcript);
        let mut transcript = transcript;
        let (cs, commitment) = set_up_prover::<RistrettoPoint>(
            pc_gens,
            bp_gens,
            &mut transcript,
            input,
            output,
            v_blinding,
            k_original,
            k_original,
        );
        proof {
            lemma_shuffle_shape::<RistrettoPoint>(
                log,
                values(input@),
                values(output@),
                v_blinding.value(),
                commitment,
                k_original as int,
            );
            assert(cs.witness().v.len() == cs.secrets.v@.len());
            assert(values(output@).take(k as int) =~= values(output@));
        }
        let ghost w = cs.witness();
        let ghost start = transcript_log(*cs.transcript);
        match cs.prove(c1_prime, c2_prime, r_prime, k_fold, num_rounds) {
            Err(e) => Err(e),
            Ok(p) => {
                proof {
                    let gens = gens_view(*bp_gens, *pc_gens);
                    let ct = Ciphertexts {
                        c1: indices::<RistrettoPoint>(c1_prime@),
                        c2: indices::<RistrettoPoint>(c2_prime@),
                        r_prime: r_prime.value(),
                    };
                    let rng = choose|rng: TranscriptRng| #[trigger]
                        honestly_drawn(p, rng, w, gens, ct, start, k_fold as int, num_rounds as int);
                    let b = drawn_blindings(rng, w.a_L.len(), c1_prime@.len());
                    assert(b.s_L.len() == w.a_L.len() && b.s_R.len() == w.a_L.len() && b.s_L_prime.len()
                        == c1_prime@.len());
                    assert(shuffle_proved_with::<RistrettoPoint>(
                        p,
                        commitment,
                        values(input@),
                        values(output@),
                        v_blinding.value(),
                        b,
                        gens,
                        ct,
                        log,
                        k_fold as int,
                        num_rounds as int,
                    ));
                    assert(shuffle_drawn(
                        p,
                        commitment,
                        values(input@),
                        values(output@),
                        v_blinding.value(),
                        gens,
                        ct,
                        log,
                        k_fold as int,
                        num_rounds as int,
                    ));
                }
                Ok((p, commitment))
            },
        }
    }

    /// Verifies that what `commitment` is the commitment to is a permutation of
    /// `input`, and that the pair `c` is what it makes of the ciphertexts.
    pub fn verify(
        pc_gens: &PedersenGens<RistrettoPoint>,
        bp_gens: &BulletproofGens<RistrettoPoint>,
        transcript: Transcript,
        proof: &R1CSProof<RistrettoPoint>,
        input: &[Scalar],
        commitment: CompressedRistretto,
        c1_prime: &[RistrettoPoint],
        c2_prime: &[RistrettoPoint],
        c: &[RistrettoPoint],
    ) -> (res: Result<(), R1CSError>)
        requires
            can_check(
                *bp_gens,
                *proof,
                input@.len() as int,
                c1_prime@.len() as int,
                c2_prime@.len() as int,
                c@.len() as int,
            ),
        ensures
            bp_gens.gens_capacity < input@.len() ==> res == Err::<(), R1CSError>(
                R1CSError::InvalidGeneratorsLength,
            ),
            bp_gens.gens_capacity >= input@.len() && !replayable(*proof, input@.len() as int) ==> res == Err::<
                (),
                R1CSError,
            >(R1CSError::VerificationError),
            bp_gens.gens_capacity >= input@.len() && replayable(*proof, input@.len() as int)
                ==> exists|rng: TranscriptRng|
                {
                    &&& public_rng(
                        rng,
                        proof.log_batch(
                            shuffle_log::<RistrettoPoint>(transcript_log(transcript), input@.len(), commitment),
                            input@.len() as int,
                        ),
                    )
                    &&& res == if #[trigger] shuffle_accepts::<RistrettoPoint>(
                        *proof,
                        commitment,
                        values(input@),
                        gens_view(*bp_gens, *pc_gens),
                        Statement {
                            c1: indices::<RistrettoPoint>(c1_prime@),
                            c2: indices::<RistrettoPoint>(c2_prime@),
                            c_0: RistrettoPoint::index(c@[0]),
                            c_1: RistrettoPoint::index(c@[1]),
                        },
                        transcript_log(transcript),
                        upcoming_scalar(rng, 0),
                    ) {
                        Ok::<(), R1CSError>(())
                    } else {
                        Err(R1CSError::VerificationError)
                    }
                },
    {
        let k_original: usize = c1_prime.len();
        let ghost log = transcript_log(transcript);
        let mut transcript = transcript;
        let ghost encoding = commitment;
        let cs = set_up_verifier::<RistrettoPoint>(pc_gens, bp_gens, &mut transcript, input, commitment, k_original);
        proof {
            lemma_shuffle_shape::<RistrettoPoint>(
                log,
                values(input@),
                values(input@),
                0,
                encoding,
                k_original as int,
            );
        }
        let ghost start = transcript_log(*cs.transcript);
        let res = cs.verify(proof, c1_prime, c2_prime, c);
        proof {
            if bp_gens.gens_capacity >= input@.len() && replayable(*proof, input@.len() as int) {
                let rng = choose|rng: TranscriptRng|
                    {
                        &&& public_rng(rng, proof.log_batch(start, input@.len() as int))
                        &&& res == if #[trigger] cs.accepts(
                            *proof,
                            c1_prime@,
                            c2_prime@,
                            c@,
                            start,
                            upcoming_scalar(rng, 0),
                        ) {
                            Ok::<(), R1CSError>(())
                        } else {
                            Err(R1CSError::VerificationError)
                        }
                    };
                let r = upcoming_scalar(rng, 0);
                assert(cs.accepts(*proof, c1_prime@, c2_prime@, c@, start, r) == shuffle_accepts::<RistrettoPoint>(
                    *proof,
                    encoding,
                    values(input@),
                    gens_view(*bp_gens, *pc_gens),
                    Statement {
                        c1: indices::<RistrettoPoint>(c1_prime@),
                        c2: indices::<RistrettoPoint>(c2_prime@),
                        c_0: RistrettoPoint::index(c@[0]),
                        c_1: RistrettoPoint::index(c@[1]),
                    },
                    log,
                    r,
                ));
            }
        }
        res
    }
}

} // verus!
