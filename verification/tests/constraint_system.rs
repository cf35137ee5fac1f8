//! The two roles of a constraint system, on small circuits.

use maya::errors::R1CSError;
use maya::generators::{BulletproofGens, PedersenGens};
use maya::group::{Field, Group};
use maya::r1cs::constraint_system::ConstraintSystem;
use maya::r1cs::linear_combination::{LinearCombination, Variable};
use maya::r1cs::prove::Prover;
use maya::r1cs::verify::Verifier;
use maya::ristretto::point::RistrettoPoint;
use maya::ristretto::scalar::Scalar;
use maya::shuffle::fill_cs;
use merlin::Transcript;

fn scalars(s: &[u64]) -> Vec<Scalar> {
    s.iter().map(|x| Scalar::from_u64(*x)).collect()
}

fn terms(lc: &LinearCombination<Scalar>) -> Vec<(Variable, [u8; 32])> {
    lc.terms.iter().map(|(var, coeff)| (*var, coeff.to_bytes())).collect()
}

fn bytes(n: u64) -> [u8; 32] {
    Scalar::from_u64(n).to_bytes()
}

#[test]
fn linear_combinations() {
    let x = Variable::Committed(0);
    let y = Variable::MultiplierOutput(3);
    let lc = LinearCombination::from(x) + y;
    assert_eq!(terms(&lc), vec![(x, bytes(1)), (y, bytes(1))]);
    let lc = lc * Scalar::from_u64(6);
    assert_eq!(terms(&lc), vec![(x, bytes(6)), (y, bytes(6))]);
    let minus_two = Scalar::from_u64(2).negate().to_bytes();
    let lc = lc - Scalar::from_u64(2);
    assert_eq!(terms(&lc), vec![(x, bytes(6)), (y, bytes(6)), (Variable::One(), minus_two)]);
    let lc = LinearCombination::from(y) - lc;
    let minus_six = Scalar::from_u64(6).negate().to_bytes();
    assert_eq!(
        terms(&lc),
        vec![(y, bytes(1)), (x, minus_six), (y, minus_six), (Variable::One(), bytes(2))]
    );
    let neg = -LinearCombination::from(x);
    assert_eq!(terms(&neg), vec![(x, Scalar::from_u64(1).negate().to_bytes())]);
    let constant = LinearCombination::from(Scalar::from_u64(9));
    assert_eq!(terms(&constant), vec![(Variable::One(), bytes(9))]);
    assert!(LinearCombination::<Scalar>::default().terms.is_empty());
    let listed = LinearCombination::from_terms(vec![(x, Scalar::from_u64(4))]);
    assert_eq!(terms(&listed), vec![(x, bytes(4))]);
    let both = listed + constant;
    assert_eq!(terms(&both), vec![(x, bytes(4)), (Variable::One(), bytes(9))]);
}

#[test]
fn variables_of_both_roles_agree() {
    let pc = PedersenGens::<RistrettoPoint>::default();
    let bp = BulletproofGens::<RistrettoPoint>::new(8, 1);
    let mut tp = Transcript::new(b"roles");
    let mut tv = Transcript::new(b"roles");
    let mut prover = Prover::new(&bp, &pc, &mut tp);
    let mut verifier = Verifier::new(&bp, &pc, &mut tv);
    let (commitment, xs) = prover.commit_vec(&scalars(&[3, 5, 0]), Scalar::from_u64(77), 2);
    let ys = verifier.commit_vec(commitment, 3);
    assert_eq!(xs, ys);
    assert_eq!(xs, vec![Variable::Committed(0), Variable::Committed(1), Variable::Committed(2)]);
    let (more, zs) = prover.commit_vec(&scalars(&[11]), Scalar::from_u64(78), 1);
    assert_eq!(zs, vec![Variable::Committed(3)]);
    assert_eq!(verifier.commit_vec(more, 1), zs);
    assert_eq!(prover.m, 4);
    assert_eq!(verifier.m, 4);
    let mut pcs = prover.finalize_inputs();
    let mut vcs = verifier.finalize_inputs();
    assert_eq!(vcs.num_inputs, 4);
    let left = LinearCombination::from(xs[0]);
    let right = LinearCombination::from(xs[1]) - Scalar::from_u64(1);
    let a = pcs.multiply(left.clone(), right.clone());
    let b = vcs.multiply(left, right);
    assert_eq!(a, b);
    assert_eq!(
        a,
        (Variable::MultiplierLeft(0), Variable::MultiplierRight(0), Variable::MultiplierOutput(0))
    );
    // 3 * (5 - 1) = 12
    assert_eq!(pcs.secrets.a_L[0].to_bytes(), bytes(3));
    assert_eq!(pcs.secrets.a_R[0].to_bytes(), bytes(4));
    assert_eq!(pcs.secrets.a_O[0].to_bytes(), bytes(12));
    assert_eq!(vcs.num_vars, 1);
    for (p, v) in pcs.constraints.iter().zip(vcs.constraints.iter()) {
        assert_eq!(terms(p), terms(v));
    }
    assert_eq!(pcs.constraints.len(), 2);
    assert_eq!(pcs.challenge_scalar("c").to_bytes(), vcs.challenge_scalar("c").to_bytes());
}

#[test]
fn allocated_multipliers() {
    let pc = PedersenGens::<RistrettoPoint>::default();
    let bp = BulletproofGens::<RistrettoPoint>::new(2, 1);
    let mut tp = Transcript::new(b"allocate");
    let mut tv = Transcript::new(b"allocate");
    let mut pcs = Prover::new(&bp, &pc, &mut tp).finalize_inputs();
    let mut vcs = Verifier::new(&bp, &pc, &mut tv).finalize_inputs();
    assert_eq!(pcs.allocate(|| Err(R1CSError::MissingAssignment)), Err(R1CSError::MissingAssignment));
    assert!(pcs.secrets.a_L.is_empty());
    let vars = pcs
        .allocate(|| Ok((Scalar::from_u64(2), Scalar::from_u64(3), Scalar::from_u64(6))))
        .unwrap();
    assert_eq!(pcs.secrets.a_O[0].to_bytes(), bytes(6));
    // The verifier never asks for the values.
    assert_eq!(vcs.allocate(|| Err(R1CSError::MissingAssignment)).unwrap(), vars);
    assert_eq!(vcs.num_vars, 1);
    pcs.constrain(LinearCombination::from(vars.2) - Scalar::from_u64(6));
    assert_eq!(pcs.constraints.len(), 1);
}

#[test]
fn shuffle_takes_one_multiplier_less_than_scalars() {
    let pc = PedersenGens::<RistrettoPoint>::default();
    let bp = BulletproofGens::<RistrettoPoint>::new(8, 1);
    for (k_original, multipliers, constraints) in [(0usize, 0usize, 6usize), (1, 0, 5), (3, 2, 7), (5, 4, 9)] {
        let mut t = Transcript::new(b"count");
        let mut prover = Prover::new(&bp, &pc, &mut t);
        let (_, vars) = prover.commit_vec(&scalars(&[4, 3, 2, 1, 0]), Scalar::from_u64(1), k_original);
        let mut cs = prover.finalize_inputs();
        fill_cs::<RistrettoPoint, _>(&mut cs, &vars, &scalars(&[1, 2, 3, 4, 0]), k_original);
        assert_eq!(cs.secrets.a_L.len(), multipliers);
        assert_eq!(cs.constraints.len(), constraints);
    }
}

#[test]
fn satisfied_circuits_are_accepted_and_others_are_not() {
    let pc = PedersenGens::<RistrettoPoint>::default();
    let bp = BulletproofGens::<RistrettoPoint>::new(4, 1);
    // One input is the product of two others.
    for (values, expected) in [
        ([6u64, 7, 42], Ok(())),
        ([6, 7, 41], Err(R1CSError::VerificationError)),
        ([0, 0, 0], Ok(())),
    ] {
        let v = scalars(&values);
        let c1: Vec<RistrettoPoint> = (1..4u64).map(|i| RistrettoPoint::times(pc.B, Scalar::from_u64(i))).collect();
        let c2: Vec<RistrettoPoint> = (1..4u64).map(|i| RistrettoPoint::times(pc.F, Scalar::from_u64(i))).collect();
        let r_prime = Scalar::from_u64(5);
        let c = [
            RistrettoPoint::plus(RistrettoPoint::msm(&v, &c1), RistrettoPoint::times(pc.B, r_prime)),
            RistrettoPoint::plus(RistrettoPoint::msm(&v, &c2), RistrettoPoint::times(pc.F, r_prime)),
        ];
        let mut tp = Transcript::new(b"product");
        let mut prover = Prover::new(&bp, &pc, &mut tp);
        let (commitment, x) = prover.commit_vec(&v, Scalar::from_u64(99), 3);
        let mut cs = prover.finalize_inputs();
        let (_, _, o) = cs.multiply(LinearCombination::from(x[0]), LinearCombination::from(x[1]));
        cs.constrain(LinearCombination::from(o) - LinearCombination::from(x[2]));
        let proof = cs.prove(&c1, &c2, r_prime, 2, 2).unwrap();
        let mut tv = Transcript::new(b"product");
        let mut verifier = Verifier::new(&bp, &pc, &mut tv);
        let x = verifier.commit_vec(commitment, 3);
        let mut cs = verifier.finalize_inputs();
        let (_, _, o) = cs.multiply(LinearCombination::from(x[0]), LinearCombination::from(x[1]));
        cs.constrain(LinearCombination::from(o) - LinearCombination::from(x[2]));
        assert_eq!(cs.verify(&proof, &c1, &c2, &c), expected);
    }
}

#[test]
fn erased_provers_hold_zeros() {
    let pc = PedersenGens::<RistrettoPoint>::default();
    let bp = BulletproofGens::<RistrettoPoint>::new(4, 1);
    let mut t = Transcript::new(b"erase");
    let mut prover = Prover::new(&bp, &pc, &mut t);
    let (_, x) = prover.commit_vec(&scalars(&[6, 7]), Scalar::from_u64(99), 2);
    let mut cs = prover.finalize_inputs();
    cs.multiply(LinearCombination::from(x[0]), LinearCombination::from(x[1]));
    cs.secrets.erase();
    assert!(cs.secrets.v.len() == 2 && cs.secrets.v[0].is_zero() && cs.secrets.v[1].is_zero());
    assert!(cs.secrets.v_blinding.is_zero());
    assert!(cs.secrets.a_L.len() == 1 && cs.secrets.a_L[0].is_zero());
    assert!(cs.secrets.a_R.len() == 1 && cs.secrets.a_R[0].is_zero());
    assert!(cs.secrets.a_O.len() == 1 && cs.secrets.a_O[0].is_zero());
    assert_eq!(cs.constraints.len(), 2);
}

#[test]
fn too_few_generators_are_noticed_first() {
    let pc = PedersenGens::<RistrettoPoint>::default();
    let bp = BulletproofGens::<RistrettoPoint>::new(2, 1);
    let c1: Vec<RistrettoPoint> = vec![pc.B; 4];
    // More ciphertexts than generators, too few on one side, no folding factor.
    for (c2_len, k_fold, rounds) in [(4usize, 2usize, 1usize), (1, 2, 1), (4, 0, 0)] {
        let mut t = Transcript::new(b"few");
        let mut prover = Prover::new(&bp, &pc, &mut t);
        prover.commit_vec(&scalars(&[1, 2, 3]), Scalar::from_u64(99), 2);
        let cs = prover.finalize_inputs();
        let proof = cs.prove(&c1, &c1[..c2_len], Scalar::from_u64(5), k_fold, rounds);
        assert_eq!(proof.err(), Some(R1CSError::InvalidGeneratorsLength));
    }
    // The same for the other role.
    let enough = BulletproofGens::<RistrettoPoint>::new(4, 1);
    let mut t = Transcript::new(b"few");
    let mut prover = Prover::new(&enough, &pc, &mut t);
    let (commitment, _) = prover.commit_vec(&scalars(&[1, 2, 3]), Scalar::from_u64(99), 3);
    let proof = prover.finalize_inputs().prove(&c1[..3], &c1[..3], Scalar::from_u64(5), 2, 1).unwrap();
    for (c1_len, c2_len, c_len) in [(3usize, 3usize, 2usize), (4, 4, 2), (2, 1, 2), (3, 3, 0)] {
        let mut t = Transcript::new(b"few");
        let mut verifier = Verifier::new(&bp, &pc, &mut t);
        verifier.commit_vec(commitment, 3);
        let verdict =
            verifier.finalize_inputs().verify(&proof, &c1[..c1_len], &c1[..c2_len], &c1[..c_len]);
        assert_eq!(verdict, Err(R1CSError::InvalidGeneratorsLength));
    }
}

#[test]
fn weights_are_given_after_the_proof_is_read() {
    let pc = PedersenGens::<RistrettoPoint>::default();
    let bp = BulletproofGens::<RistrettoPoint>::new(4, 1);
    let v = scalars(&[1, 2, 3]);
    let c1: Vec<RistrettoPoint> = vec![pc.B; 3];
    let c2: Vec<RistrettoPoint> = vec![pc.F; 3];
    let r_prime = Scalar::from_u64(5);
    let c = [
        RistrettoPoint::plus(RistrettoPoint::msm(&v, &c1), RistrettoPoint::times(pc.B, r_prime)),
        RistrettoPoint::plus(RistrettoPoint::msm(&v, &c2), RistrettoPoint::times(pc.F, r_prime)),
    ];
    let wrong = [c[0], c[0]];
    let mut t = Transcript::new(b"read");
    let mut prover = Prover::new(&bp, &pc, &mut t);
    let (commitment, _) = prover.commit_vec(&v, Scalar::from_u64(99), 3);
    let mut proof = prover.finalize_inputs().prove(&c1, &c2, r_prime, 2, 1).unwrap();
    for weight in [0u64, 1, 77] {
        // A weight of zero leaves out the equation on the ciphertexts.
        for (pair, expected) in [(&c, true), (&wrong, weight == 0)] {
            let mut t = Transcript::new(b"read");
            let mut verifier = Verifier::new(&bp, &pc, &mut t);
            verifier.commit_vec(commitment, 3);
            let mut cs = verifier.finalize_inputs();
            let replay = cs.replay(&proof).ok().unwrap();
            let verdict = cs.conclude(replay, &proof, &c1, &c2, pair, Scalar::from_u64(weight));
            assert_eq!(verdict.is_ok(), expected);
        }
    }
    // A proof whose inner product argument is too long is refused before.
    proof.ipp_proof.a_final.push(Scalar::zero());
    let mut t = Transcript::new(b"read");
    let mut verifier = Verifier::new(&bp, &pc, &mut t);
    verifier.commit_vec(commitment, 3);
    let mut cs = verifier.finalize_inputs();
    assert_eq!(cs.replay(&proof).err(), Some(R1CSError::VerificationError));
}
