//! Shuffles over P-256, from the witness to the verdict.

use maya::errors::{ProofError, R1CSError};
use maya::generators::{BulletproofGens, PedersenGens};
use maya::group::{Field, Group};
use maya::r1cs::r1cs_proof::R1CSProof;
use maya::p256::curve::Projective;
use maya::p256::field::Fr;
use maya::p256::r1cs::blindings_from;
use maya::p256::shuffle::KShuffleGadget;
use merlin::Transcript;

struct Statement {
    input: Vec<Fr>,
    output: Vec<Fr>,
    c1: Vec<Projective>,
    c2: Vec<Projective>,
    c: Vec<Projective>,
    r_prime: Fr,
}

fn statement(pc: &PedersenGens<Projective>, n: usize, padded: usize) -> Statement {
    let mut input: Vec<Fr> = (0..n).map(|i| Fr::from_u64(7 + 3 * i as u64)).collect();
    let mut output: Vec<Fr> = input.iter().rev().copied().collect();
    input.resize(padded, Fr::zero());
    output.resize(padded, Fr::zero());
    let c1: Vec<Projective> =
        (0..n).map(|i| Projective::times(pc.B, Fr::from_u64(100 + i as u64))).collect();
    let c2: Vec<Projective> =
        (0..n).map(|i| Projective::times(pc.F, Fr::from_u64(200 + 5 * i as u64))).collect();
    let r_prime = Fr::from_u64(987654321);
    let c = vec![
        Projective::plus(Projective::msm(&output[..n], &c1), Projective::times(pc.B, r_prime)),
        Projective::plus(Projective::msm(&output[..n], &c2), Projective::times(pc.F, r_prime)),
    ];
    Statement { input, output, c1, c2, c, r_prime }
}

fn prove(
    pc: &PedersenGens<Projective>,
    bp: &BulletproofGens<Projective>,
    s: &Statement,
    k_fold: usize,
    rounds: usize,
) -> Result<(R1CSProof<Projective>, Vec<u8>), R1CSError> {
    KShuffleGadget::prove(
        pc,
        bp,
        Transcript::new(b"ShuffleTest"),
        &s.input,
        &s.output,
        &s.c1,
        &s.c2,
        s.r_prime,
        k_fold,
        rounds,
        Fr::from_u64(424242),
    )
}

fn verify(
    pc: &PedersenGens<Projective>,
    bp: &BulletproofGens<Projective>,
    s: &Statement,
    proof: &R1CSProof<Projective>,
    commitment: Vec<u8>,
) -> Result<(), R1CSError> {
    KShuffleGadget::verify(
        pc,
        bp,
        Transcript::new(b"ShuffleTest"),
        proof,
        &s.input,
        commitment,
        &s.c1,
        &s.c2,
        &s.c,
    )
}

#[test]
fn p256_shuffle_is_accepted() {
    let pc = PedersenGens::<Projective>::default();
    let bp = BulletproofGens::<Projective>::new(16, 1);
    for (n, padded, k, rounds) in [(5usize, 8usize, 2usize, 3usize), (7, 7, 3, 2), (2, 2, 4, 1), (6, 9, 2, 0)] {
        let s = statement(&pc, n, padded);
        let (proof, commitment) = prove(&pc, &bp, &s, k, rounds).unwrap();
        assert_eq!(verify(&pc, &bp, &s, &proof, commitment.clone()), Ok(()));
    }
}

#[test]
fn p256_serialized_proof_is_accepted() {
    let pc = PedersenGens::<Projective>::default();
    let bp = BulletproofGens::<Projective>::new(8, 1);
    let s = statement(&pc, 5, 8);
    let (proof, commitment) = prove(&pc, &bp, &s, 2, 3).unwrap();
    let bytes = proof.to_bytes();
    assert_eq!(bytes.len(), 13 * (8 + 33) + 8 * (8 + 32) + 16 + proof.ipp_proof.to_bytes().len() + proof.ecp_batched.to_bytes().len());
    assert_eq!(proof.ipp_proof.to_bytes().len(), 24 + 6 * (4 + 33) + 2 * (4 + 32));
    assert_eq!(proof.ecp_batched.to_bytes().len(), 24 + 12 * (4 + 33) + (4 + 32));
    let read = R1CSProof::<Projective>::from_bytes(&bytes).ok().unwrap();
    assert_eq!(read.to_bytes(), bytes);
    assert_eq!(verify(&pc, &bp, &s, &read, commitment.clone()), Ok(()));
}

#[test]
fn p256_wrong_statement_is_rejected() {
    let pc = PedersenGens::<Projective>::default();
    let bp = BulletproofGens::<Projective>::new(8, 1);
    let s = statement(&pc, 5, 8);
    let (proof, commitment) = prove(&pc, &bp, &s, 2, 2).unwrap();
    // Another pair comes out.
    let mut other = statement(&pc, 5, 8);
    other.c[0] = Projective::plus(other.c[0], pc.B);
    assert_eq!(verify(&pc, &bp, &other, &proof, commitment.clone()), Err(R1CSError::VerificationError));
    let mut other = statement(&pc, 5, 8);
    other.c[1] = Projective::plus(other.c[1], pc.F);
    assert_eq!(verify(&pc, &bp, &other, &proof, commitment.clone()), Err(R1CSError::VerificationError));
    // The inputs are no permutation.
    let mut other = statement(&pc, 5, 8);
    other.input[0] = Fr::from_u64(8);
    assert_eq!(verify(&pc, &bp, &other, &proof, commitment.clone()), Err(R1CSError::VerificationError));
    // Another commitment.
    assert_eq!(
        verify(&pc, &bp, &s, &proof, Projective::encode(pc.B)),
        Err(R1CSError::VerificationError)
    );
    // A commitment that is no group element.
    assert_eq!(
        verify(&pc, &bp, &s, &proof, vec![0xff; 33]),
        Err(R1CSError::VerificationError)
    );
}

#[test]
fn p256_unsatisfied_witness_is_rejected() {
    let pc = PedersenGens::<Projective>::default();
    let bp = BulletproofGens::<Projective>::new(8, 1);
    let mut s = statement(&pc, 4, 4);
    s.input[1] = Fr::from_u64(999);
    let (proof, commitment) = prove(&pc, &bp, &s, 2, 2).unwrap();
    assert_eq!(verify(&pc, &bp, &s, &proof, commitment.clone()), Err(R1CSError::VerificationError));
}

#[test]
fn p256_too_few_generators() {
    let pc = PedersenGens::<Projective>::default();
    let bp = BulletproofGens::<Projective>::new(8, 1);
    let few = BulletproofGens::<Projective>::new(5, 1);
    let s = statement(&pc, 5, 8);
    let (proof, commitment) = prove(&pc, &bp, &s, 2, 2).unwrap();
    assert_eq!(verify(&pc, &few, &s, &proof, commitment.clone()), Err(R1CSError::InvalidGeneratorsLength));
}

#[test]
fn p256_bad_bytes_are_refused() {
    let pc = PedersenGens::<Projective>::default();
    let bp = BulletproofGens::<Projective>::new(8, 1);
    let s = statement(&pc, 3, 4);
    let (proof, _) = prove(&pc, &bp, &s, 2, 1).unwrap();
    let bytes = proof.to_bytes();
    let refused = |b: &[u8]| R1CSProof::<Projective>::from_bytes(b).err() == Some(ProofError::FormatError);
    assert!(refused(&[]));
    assert!(refused(&bytes[..7]));
    assert!(refused(&bytes[..40]));
    assert!(refused(&bytes[..bytes.len() - 1]));
    let mut scalar = bytes.clone();
    for b in scalar[13 * 41 + 8..13 * 41 + 40].iter_mut() {
        *b = 0xff;
    }
    assert!(refused(&scalar));
    let mut length = bytes.clone();
    length[7] = 0xff;
    assert!(refused(&length));
    let arguments = 13 * 41 + 8 * 40 + 16;
    let mut factor = bytes.clone();
    factor[arguments] = 0;
    assert!(refused(&factor));
    // Bytes after the proof do not count.
    let mut longer = bytes.clone();
    longer.push(0);
    assert!(!refused(&longer));
    assert!(!refused(&bytes));
}

#[test]
fn p256_shuffle_of_one_is_refused() {
    let pc = PedersenGens::<Projective>::default();
    let bp = BulletproofGens::<Projective>::new(4, 1);
    for n in 0..2 {
        let s = statement(&pc, n, n);
        assert_eq!(prove(&pc, &bp, &s, 2, 1).err(), Some(R1CSError::InputLengthError));
    }
}

#[test]
fn p256_nonzero_padding_is_rejected() {
    let pc = PedersenGens::<Projective>::default();
    let bp = BulletproofGens::<Projective>::new(4, 1);
    let mut s = statement(&pc, 3, 4);
    s.input[3] = Fr::from_u64(5);
    s.output[3] = Fr::from_u64(5);
    let (proof, commitment) = prove(&pc, &bp, &s, 2, 2).unwrap();
    assert_eq!(verify(&pc, &bp, &s, &proof, commitment), Err(R1CSError::VerificationError));
}

#[test]
fn p256_blindings_are_handed_out_in_order() {
    let (n, k) = (2usize, 3usize);
    let drawn: Vec<Fr> = (0..2 * n + k + 12).map(|i| Fr::from_u64(i as u64)).collect();
    let b = blindings_from(&drawn, n, k);
    let is = |s: &[Fr], from: u64| {
        s.iter().enumerate().all(|(i, x)| x.to_bytes() == Fr::from_u64(from + i as u64).to_bytes())
    };
    assert!(is(&[b.i_blinding, b.o_blinding, b.s_blinding], 0));
    assert!(b.s_L.len() == 2 && is(&b.s_L, 3));
    assert!(b.s_R.len() == 2 && is(&b.s_R, 5));
    assert!(is(&[b.t_1_blinding, b.t_3_blinding, b.t_4_blinding, b.t_5_blinding, b.t_6_blinding], 7));
    assert!(is(&[b.t_2_blinding, b.s_prime_blinding, b.rnd], 12));
    assert!(b.s_L_prime.len() == 3 && is(&b.s_L_prime, 15));
    assert!(is(&[b.t_1_prime_blinding], 18));
}
