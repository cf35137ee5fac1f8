//! Shuffles over Ristretto255, from the witness to the verdict.

use maya::errors::{ProofError, R1CSError};
use maya::generators::{BulletproofGens, PedersenGens};
use maya::group::{Field, Group};
use maya::r1cs::r1cs_proof::R1CSProof;
use maya::ristretto::point::{CompressedRistretto, RistrettoPoint};
use maya::ristretto::scalar::Scalar;
use maya::ristretto::shuffle::KShuffleGadget;
use merlin::Transcript;

struct Statement {
    input: Vec<Scalar>,
    output: Vec<Scalar>,
    c1: Vec<RistrettoPoint>,
    c2: Vec<RistrettoPoint>,
    c: Vec<RistrettoPoint>,
    r_prime: Scalar,
}

fn statement(pc: &PedersenGens<RistrettoPoint>, n: usize, padded: usize) -> Statement {
    let mut input: Vec<Scalar> = (0..n).map(|i| Scalar::from_u64(7 + 3 * i as u64)).collect();
    let mut output: Vec<Scalar> = input.iter().rev().copied().collect();
    input.resize(padded, Scalar::zero());
    output.resize(padded, Scalar::zero());
    let c1: Vec<RistrettoPoint> =
        (0..n).map(|i| RistrettoPoint::times(pc.B, Scalar::from_u64(100 + i as u64))).collect();
    let c2: Vec<RistrettoPoint> =
        (0..n).map(|i| RistrettoPoint::times(pc.F, Scalar::from_u64(200 + 5 * i as u64))).collect();
    let r_prime = Scalar::from_u64(987654321);
    let c = vec![
        RistrettoPoint::plus(RistrettoPoint::msm(&output[..n], &c1), RistrettoPoint::times(pc.B, r_prime)),
        RistrettoPoint::plus(RistrettoPoint::msm(&output[..n], &c2), RistrettoPoint::times(pc.F, r_prime)),
    ];
    Statement { input, output, c1, c2, c, r_prime }
}

fn prove(
    pc: &PedersenGens<RistrettoPoint>,
    bp: &BulletproofGens<RistrettoPoint>,
    s: &Statement,
    k_fold: usize,
    rounds: usize,
) -> Result<(R1CSProof<RistrettoPoint>, CompressedRistretto), R1CSError> {
    KShuffleGadget::prove(
        pc,
        bp,
        Transcript::new(b"ShuffleTest"),
        &s.input,
        &s.output,
        &s.c1,
        &s.c2,
        s.r_prime,
        k_fold,
        rounds,
        Scalar::from_u64(424242),
    )
}

fn verify(
    pc: &PedersenGens<RistrettoPoint>,
    bp: &BulletproofGens<RistrettoPoint>,
    s: &Statement,
    proof: &R1CSProof<RistrettoPoint>,
    commitment: CompressedRistretto,
) -> Result<(), R1CSError> {
    KShuffleGadget::verify(
        pc,
        bp,
        Transcript::new(b"ShuffleTest"),
        proof,
        &s.input,
        commitment,
        &s.c1,
        &s.c2,
        &s.c,
    )
}

#[test]
fn ristretto_shuffle_is_accepted() {
    let pc = PedersenGens::<RistrettoPoint>::default();
    let bp = BulletproofGens::<RistrettoPoint>::new(16, 1);
    for (n, padded, k, rounds) in [(5usize, 8usize, 2usize, 3usize), (7, 7, 3, 2), (2, 2, 4, 1), (6, 9, 2, 0)] {
        let s = statement(&pc, n, padded);
        let (proof, commitment) = prove(&pc, &bp, &s, k, rounds).unwrap();
        assert_eq!(verify(&pc, &bp, &s, &proof, commitment), Ok(()));
    }
}

#[test]
fn ristretto_serialized_proof_is_accepted() {
    let pc = PedersenGens::<RistrettoPoint>::default();
    let bp = BulletproofGens::<RistrettoPoint>::new(8, 1);
    let s = statement(&pc, 5, 8);
    let (proof, commitment) = prove(&pc, &bp, &s, 2, 3).unwrap();
    let bytes = proof.to_bytes();
    assert_eq!(proof.clone().to_bytes(), bytes);
    assert!(format!("{:?}", proof).contains("ipp_proof"));
    assert_eq!(
        bytes.len(),
        21 * 32 + 16 + proof.ipp_proof.serialized_size() + proof.ecp_batched.serialized_size()
    );
    let read = R1CSProof::<RistrettoPoint>::from_bytes(&bytes).ok().unwrap();
    assert_eq!(read.to_bytes(), bytes);
    assert_eq!(verify(&pc, &bp, &s, &read, commitment), Ok(()));
}

#[test]
fn ristretto_wrong_statement_is_rejected() {
    let pc = PedersenGens::<RistrettoPoint>::default();
    let bp = BulletproofGens::<RistrettoPoint>::new(8, 1);
    let s = statement(&pc, 5, 8);
    let (proof, commitment) = prove(&pc, &bp, &s, 2, 2).unwrap();
    // Another pair comes out.
    let mut other = statement(&pc, 5, 8);
    other.c[0] = RistrettoPoint::plus(other.c[0], pc.B);
    assert_eq!(verify(&pc, &bp, &other, &proof, commitment), Err(R1CSError::VerificationError));
    let mut other = statement(&pc, 5, 8);
    other.c[1] = RistrettoPoint::plus(other.c[1], pc.F);
    assert_eq!(verify(&pc, &bp, &other, &proof, commitment), Err(R1CSError::VerificationError));
    // The inputs are no permutation.
    let mut other = statement(&pc, 5, 8);
    other.input[0] = Scalar::from_u64(8);
    assert_eq!(verify(&pc, &bp, &other, &proof, commitment), Err(R1CSError::VerificationError));
    // Another commitment.
    assert_eq!(
        verify(&pc, &bp, &s, &proof, pc.B.compress()),
        Err(R1CSError::VerificationError)
    );
    // A commitment that is no group element.
    assert_eq!(
        verify(&pc, &bp, &s, &proof, CompressedRistretto([0xff; 32])),
        Err(R1CSError::VerificationError)
    );
}

#[test]
fn ristretto_unsatisfied_witness_is_rejected() {
    let pc = PedersenGens::<RistrettoPoint>::default();
    let bp = BulletproofGens::<RistrettoPoint>::new(8, 1);
    let mut s = statement(&pc, 4, 4);
    s.input[1] = Scalar::from_u64(999);
    let (proof, commitment) = prove(&pc, &bp, &s, 2, 2).unwrap();
    assert_eq!(verify(&pc, &bp, &s, &proof, commitment), Err(R1CSError::VerificationError));
}

#[test]
fn ristretto_too_few_generators() {
    let pc = PedersenGens::<RistrettoPoint>::default();
    let bp = BulletproofGens::<RistrettoPoint>::new(8, 1);
    let few = BulletproofGens::<RistrettoPoint>::new(5, 1);
    let s = statement(&pc, 5, 8);
    assert_eq!(prove(&pc, &few, &s, 2, 2).err(), Some(R1CSError::InvalidGeneratorsLength));
    let (proof, commitment) = prove(&pc, &bp, &s, 2, 2).unwrap();
    assert_eq!(verify(&pc, &few, &s, &proof, commitment), Err(R1CSError::InvalidGeneratorsLength));
}

#[test]
fn ristretto_bad_bytes_are_refused() {
    let pc = PedersenGens::<RistrettoPoint>::default();
    let bp = BulletproofGens::<RistrettoPoint>::new(8, 1);
    let s = statement(&pc, 3, 4);
    let (proof, _) = prove(&pc, &bp, &s, 2, 1).unwrap();
    let bytes = proof.to_bytes();
    let refused = |b: &[u8]| R1CSProof::<RistrettoPoint>::from_bytes(b).err() == Some(ProofError::FormatError);
    assert!(refused(&[]));
    assert!(refused(&bytes[..687]));
    assert!(refused(&bytes[..bytes.len() - 1]));
    let mut longer = bytes.clone();
    longer.push(0);
    assert!(refused(&longer));
    let mut scalar = bytes.clone();
    for b in scalar[13 * 32..14 * 32].iter_mut() {
        *b = 0xff;
    }
    assert!(refused(&scalar));
    let mut factor = bytes.clone();
    factor[688] = 0;
    assert!(refused(&factor));
    assert!(!refused(&bytes));
}

#[test]
fn ristretto_shuffle_of_one_is_refused() {
    let pc = PedersenGens::<RistrettoPoint>::default();
    let bp = BulletproofGens::<RistrettoPoint>::new(4, 1);
    for n in 0..2 {
        let s = statement(&pc, n, n);
        assert_eq!(prove(&pc, &bp, &s, 2, 1).err(), Some(R1CSError::InputLengthError));
    }
}

#[test]
fn ristretto_nonzero_padding_is_rejected() {
    let pc = PedersenGens::<RistrettoPoint>::default();
    let bp = BulletproofGens::<RistrettoPoint>::new(4, 1);
    let mut s = statement(&pc, 3, 4);
    s.input[3] = Scalar::from_u64(5);
    s.output[3] = Scalar::from_u64(5);
    let (proof, commitment) = prove(&pc, &bp, &s, 2, 2).unwrap();
    assert_eq!(verify(&pc, &bp, &s, &proof, commitment), Err(R1CSError::VerificationError));
}

#[test]
fn ristretto_proofs_are_blinded_anew() {
    let pc = PedersenGens::<RistrettoPoint>::default();
    let bp = BulletproofGens::<RistrettoPoint>::new(4, 1);
    let s = statement(&pc, 4, 4);
    let (first, c1) = prove(&pc, &bp, &s, 2, 2).unwrap();
    let (second, c2) = prove(&pc, &bp, &s, 2, 2).unwrap();
    // The blinding factor of the commitment is given, all others are drawn.
    assert_eq!(c1.0, c2.0);
    assert_ne!(first.A_I.0, second.A_I.0);
    assert_ne!(first.S_prime.0, second.S_prime.0);
    assert_eq!(verify(&pc, &bp, &s, &first, c1), Ok(()));
    assert_eq!(verify(&pc, &bp, &s, &second, c2), Ok(()));
}
