//! Proofs of shuffles over P-256.

use merlin::Transcript;
use vstd::prelude::*;
use crate::errors::R1CSError;
use crate::generators::{BulletproofGens, GensView, PedersenGens, gens_view};
use crate::group::{Field, Group, encodes, indices, values};
use crate::modular::md;
use crate::p256::curve::Projective;
use crate::p256::field::Fr;
use crate::p256::r1cs::{blindings_of, drawn};
use crate::r1cs::equations::Statement;
use crate::r1cs::honest::{Ciphertexts, honest};
use crate::r1cs::r1cs_proof::R1CSProof;
use crate::shuffle::{
    can_check, can_shuffle, gates, set_up_prover, set_up_verifier, shuffle_accepts, shuffle_proved,
    shuffle_proved_with,
};
use crate::shuffle_laws::lemma_shuffle_shape;
use crate::sums::dot;
use crate::transcript::{Log, transcript_log};

verus! {

/// With drawn scalars, in the order in which they are drawn, `p` is what an
/// honest prover sends of the shuffle of `input` into `output`.
pub open spec fn shuffle_drawn(
    p: R1CSProof<Projective>,
    v: Vec<u8>,
    input: Seq<int>,
    output: Seq<int>,
    v_blinding: int,
    gens: GensView,
    ct: Ciphertexts,
    log: Log,
    k_fold: int,
    rounds: int,
) -> bool {
    let n = gates(ct.c1.len() as int, input.len() as int);
    exists|s: Seq<int>|
        {
            &&& s.len() == 2 * n + ct.c1.len() + 12
            &&& drawn(s)
            &&& #[trigger] shuffle_proved_with::<Projective>(
                p,
                v,
                input,
                output,
                v_blinding,
                blindings_of(s, n, ct.c1.len()),
                gens,
                ct,
                log,
                k_fold,
                rounds,
            )
        }
}

/// Proves and verifies shuffles.
pub struct KShuffleGadget;

impl KShuffleGadget {
    /// Proves that `output` is a permutation of `input`, with as many scalars
    /// as there are ciphertexts and then zeros.
    ///
    /// Returns the proof and the commitment to `output`.
    pub fn prove(
        pc_gens: &PedersenGens<Projective>,
        bp_gens: &BulletproofGens<Projective>,
        transcript: Transcript,
        input: &[Fr],
        output: &[Fr],
        c1_prime: &[Projective],
        c2_prime: &[Projective],
        r_prime: Fr,
        k_fold: usize,
        num_rounds: usize,
        v_blinding: Fr,
    ) -> (r: Result<(R1CSProof<Projective>, Vec<u8>), R1CSError>)
        requires
            input@.len() > 1 ==> {
                &&& can_shuffle(
                    *bp_gens,
                    input@.len() as int,
                    output@.len() as int,
                    c1_prime@.len() as int,
                    c2_prime@.len() as int,
                    k_fold as int,
                )
                &&& input@.len() <= bp_gens.gens_capacity
                &&& 3 * input@.len() + 12 <= usize::MAX
            },
        ensures
            input@.len() <= 1 ==> r == Err::<(R1CSProof<Projective>, Vec<u8>), R1CSError>(
                R1CSError::InputLengthError,
            ),
            1 < input@.len() ==> r is Ok,
            r matches Ok((p, commitment)) ==> {
                let gens = gens_view(*bp_gens, *pc_gens);
                let log = transcript_log(transcript);
                &&& encodes::<Projective>(
                    commitment,
                    md(
                        v_blinding.value() * gens.b_blinding + dot(values(output@), gens.g),
                        Fr::modulus(),
                    ),
                )
                &&& shuffle_proved::<Projective>(
                    p,
                    commitment,
                    values(input@),
                    values(output@),
                    v_blinding.value(),
                    gens,
                    Ciphertexts {
                        c1: indices::<Projective>(c1_prime@),
                        c2: indices::<Projective>(c2_prime@),
                        r_prime: r_prime.value(),
                    },
                    log,
                    k_fold as int,
                    num_rounds as int,
                )
                &&& shuffle_drawn(
                    p,
                    commitment,
                    values(input@),
                    values(output@),
                    v_blinding.value(),
                    gens,
                    Ciphertexts {
                        c1: indices::<Projective>(c1_prime@),
                        c2: indices::<Projective>(c2_prime@),
                        r_prime: r_prime.value(),
                    },
                    log,
                    k_fold as int,
                    num_rounds as int,
                )
            },
    {
        let k: usize = input.len();
        let k_original: usize = c1_prime.len();
        if k <= 1 {
            return Err(R1CSError::InputLengthError);
        }
        let ghost log = transcript_log(transcript);
        let mut transcript = transcript;
        let (cs, commitment) = set_up_prover::<Projective>(
            pc_gens,
            bp_gens,
            &mut transcript,
            input,
            output,
            v_blinding,
            k,
            k_original,
        );
        proof {
            lemma_shuffle_shape::<Projective>(
                log,
                values(input@),
                values(output@),
                v_blinding.value(),
                commitment,
                k_original as int,
            );
            assert(cs.witness().v.len() == cs.secrets.v@.len());
            assert(values(output@).take(k as int) =~= values(output@));
        }
        let ghost w = cs.witness();
        let ghost start = transcript_log(*cs.transcript);
        match cs.prove(c1_prime, c2_prime, r_prime, k_fold, num_rounds) {
            Err(e) => Err(e),
            Ok(p) => {
                proof {
                    let gens = gens_view(*bp_gens, *pc_gens);
                    let ct = Ciphertexts {
                        c1: indices::<Projective>(c1_prime@),
                        c2: indices::<Projective>(c2_prime@),
                        r_prime: r_prime.value(),
                    };
                    let s = choose|s: Seq<int>|
                        {
                            &&& s.len() == 2 * w.a_L.len() + c1_prime@.len() + 12
                            &&& drawn(s)
                            &&& #[trigger] honest(
                                p,
                                w,
                                blindings_of(s, w.a_L.len(), c1_prime@.len()),
                                gens,
                                ct,
                                start,
                                k_fold as int,
                                num_rounds as int,
                            )
                        };
                    let n = gates(k_original as int, values(input@).len() as int);
                    assert(w.a_L.len() == n);
                    let b = blindings_of(s, n, c1_prime@.len());
                    assert(shuffle_proved_with::<Projective>(
                        p,
                        commitment,
                        values(input@),
                        values(output@),
                        v_blinding.value(),
                        b,
                        gens,
                        ct,
                        log,
                        k_fold as int,
                        num_rounds as int,
                    ));
                }
                Ok((p, commitment))
            },
        }
    }

    /// Verifies that what `commitment` is the commitment to is a permutation of
    /// `input`, and that the pair `c` is what it makes of the ciphertexts.
    pub fn verify(
        pc_gens: &PedersenGens<Projective>,
        bp_gens: &BulletproofGens<Projective>,
        transcript: Transcript,
        proof: &R1CSProof<Projective>,
        input: &[Fr],
        commitment: Vec<u8>,
        c1_prime: &[Projective],
        c2_prime: &[Projective],
        c: &[Projective],
    ) -> (res: Result<(), R1CSError>)
        requires
            can_check(
                *bp_gens,
                *proof,
                input@.len() as int,
                c1_prime@.len() as int,
                c2_prime@.len() as int,
                c@.len() as int,
            ),
            commitment@.len() <= u32::MAX,
        ensures
            bp_gens.gens_capacity < input@.len() ==> res == Err::<(), R1CSError>(
                R1CSError::InvalidGeneratorsLength,
            ),
            bp_gens.gens_capacity >= input@.len() ==> exists|r: int|
                drawn(seq![r]) && res == if #[trigger] shuffle_accepts::<Projective>(
                    *proof,
                    commitment,
                    values(input@),
                    gens_view(*bp_gens, *pc_gens),
                    Statement {
                        c1: indices::<Projective>(c1_prime@),
                        c2: indices::<Projective>(c2_prime@),
                        c_0: Projective::index(c@[0]),
                        c_1: Projective::index(c@[1]),
                    },
                    transcript_log(transcript),
                    r,
                ) {
                    Ok::<(), R1CSError>(())
                } else {
                    Err(R1CSError::VerificationError)
                },
    {
        let k_original: usize = c1_prime.len();
        let ghost log = transcript_log(transcript);
        let mut transcript = transcript;
        let ghost encoding = commitment;
        let cs = set_up_verifier::<Projective>(pc_gens, bp_gens, &mut transcript, input, commitment, k_original);
        proof {
            lemma_shuffle_shape::<Projective>(
                log,
                values(input@),
                values(input@),
                0,
                encoding,
                k_original as int,
            );
        }
        let ghost start = transcript_log(*cs.transcript);
        let res = cs.verify(proof, c1_prime, c2_prime, c);
        proof {
            if bp_gens.gens_capacity >= input@.len() {
                let r = choose|r: int|
                    drawn(seq![r]) && res == if #[trigger] cs.accepts(*proof, c1_prime@, c2_prime@, c@, start, r) {
                        Ok::<(), R1CSError>(())
                    } else {
                        Err(R1CSError::VerificationError)
                    };
                assert(cs.accepts(*proof, c1_prime@, c2_prime@, c@, start, r) == shuffle_accepts::<Projective>(
                    *proof,
                    encoding,
                    values(input@),
                    gens_view(*bp_gens, *pc_gens),
                    Statement {
                        c1: indices::<Projective>(c1_prime@),
                        c2: indices::<Projective>(c2_prime@),
                        c_0: Projective::index(c@[0]),
                        c_1: Projective::index(c@[1]),
                    },
                    log,
                    r,
                ));
            }
        }
        res
    }
}

} // verus!
