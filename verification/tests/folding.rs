//! The two folding arguments on their own.

use maya::errors::ProofError;
use maya::generators::BulletproofGens;
use maya::group::{Field, Group};
use maya::inner_product_proof::{inner_product, prove_ecp, prove_ipa};
use maya::p256::curve::Projective;
use maya::ristretto::point::RistrettoPoint;
use maya::ristretto::scalar::Scalar;
use merlin::Transcript;

fn scalars<F: Field>(n: usize, from: u64) -> Vec<F> {
    (0..n as u64).map(|i| F::from_u64(from + i * i)).collect()
}

fn same<G: Group>(p: G::Point, q: G::Point) -> bool {
    G::as_bytes(&G::encode(p)) == G::as_bytes(&G::encode(q))
}

/// Whether the verification equation of the inner product argument holds.
fn ipa_holds<G: Group>(g: &[G::Point], h: &[G::Point], q: G::Point, k: usize, rounds: usize) -> bool {
    let n = g.len();
    let a = scalars::<G::Scalar>(n, 3);
    let b = scalars::<G::Scalar>(n, 1000);
    let proof = prove_ipa::<G>::create(&mut Transcript::new(b"ipa"), k, g, h, q, &a, &b, rounds);
    assert_eq!(proof.U_vecs.len(), rounds);
    let (s_g, s_h, s_q, s_p, s_u) = proof.verification_scalars(n, &mut Transcript::new(b"ipa")).unwrap();
    let u: Vec<G::Point> =
        proof.U_vecs.iter().flatten().map(|e| G::decode(e).unwrap()).collect();
    let p = G::plus(G::plus(G::msm(&a, g), G::msm(&b, h)), G::times(q, inner_product(&a, &b)));
    let left = G::plus(G::plus(G::msm(&s_g, g), G::msm(&s_h, h)), G::times(q, s_q));
    let right = G::plus(G::times(p, s_p), G::vartime_msm(&s_u, &u));
    same::<G>(left, right)
}

/// Whether the verification equations of the argument for two bases hold.
fn ecp_holds<G: Group>(g: &[G::Point], c: &[G::Point], k: usize, rounds: usize) -> bool {
    let n = g.len();
    let a = scalars::<G::Scalar>(n, 20);
    let proof = prove_ecp::<G>::create(&mut Transcript::new(b"ecp"), k, g, c, &a, rounds);
    let (s_z, s_p, s_a) = proof.verification_scalars(n, &mut Transcript::new(b"ecp")).unwrap();
    [g, c].iter().enumerate().all(|(side, bases)| {
        let terms: Vec<G::Point> =
            proof.A_vecs.iter().flatten().map(|e| G::decode(&e[side]).unwrap()).collect();
        let left = G::msm(&s_z, bases);
        let right = G::plus(G::times(G::msm(&a, bases), s_p), G::msm(&s_a, &terms));
        same::<G>(left, right)
    })
}

#[test]
fn inner_product_argument_over_ristretto() {
    let bp = BulletproofGens::<RistrettoPoint>::new(10, 1);
    let (g, h) = (bp.G(10, 1), bp.H(10, 1));
    let q = RistrettoPoint::generator();
    for (n, k, rounds) in [(8usize, 2usize, 3usize), (10, 2, 2), (9, 3, 2), (7, 4, 3), (5, 2, 0), (1, 2, 1)] {
        assert!(ipa_holds::<RistrettoPoint>(&g[..n], &h[..n], q, k, rounds));
    }
}

#[test]
fn inner_product_argument_over_p256() {
    let bp = BulletproofGens::<Projective>::new(6, 1);
    let (g, h) = (bp.G(6, 1), bp.H(6, 1));
    let q = Projective::generator();
    for (n, k, rounds) in [(4usize, 2usize, 2usize), (6, 3, 1), (5, 2, 3)] {
        assert!(ipa_holds::<Projective>(&g[..n], &h[..n], q, k, rounds));
    }
}

#[test]
fn argument_for_two_bases() {
    let bp = BulletproofGens::<RistrettoPoint>::new(9, 1);
    let (g, h) = (bp.G(9, 1), bp.H(9, 1));
    for (n, k, rounds) in [(8usize, 2usize, 3usize), (9, 2, 2), (9, 3, 2), (6, 4, 1)] {
        assert!(ecp_holds::<RistrettoPoint>(&g[..n], &h[..n], k, rounds));
    }
    let bp = BulletproofGens::<Projective>::new(5, 1);
    let (g, h) = (bp.G(5, 1), bp.H(5, 1));
    assert!(ecp_holds::<Projective>(&g, &h, 2, 2));
}

#[test]
fn round_lengths_are_rounded_up() {
    let bp = BulletproofGens::<RistrettoPoint>::new(10, 1);
    let (g, h) = (bp.G(10, 1), bp.H(10, 1));
    let (a, b) = (scalars(10, 1), scalars(10, 2));
    let q = RistrettoPoint::generator();
    // 10 -> 4 -> 2 -> 1 for a factor of three
    for (rounds, length) in [(0usize, 10usize), (1, 4), (2, 2), (3, 1), (4, 1)] {
        let p = prove_ipa::<RistrettoPoint>::create(&mut Transcript::new(b"len"), 3, &g, &h, q, &a, &b, rounds);
        assert_eq!(p.a_final.len(), length);
        assert_eq!(p.b_final.len(), length);
        assert!(p.U_vecs.iter().all(|u| u.len() == 4));
    }
}

#[test]
fn wrong_lengths_are_refused() {
    let bp = BulletproofGens::<RistrettoPoint>::new(8, 1);
    let (g, h) = (bp.G(8, 1), bp.H(8, 1));
    let (a, b) = (scalars(8, 1), scalars(8, 2));
    let q = RistrettoPoint::generator();
    let mut t = Transcript::new(b"len");
    let p = prove_ipa::<RistrettoPoint>::create(&mut t, 2, &g, &h, q, &a, &b, 2);
    let verify = |n: usize| p.verification_scalars(n, &mut Transcript::new(b"len")).err();
    assert_eq!(verify(0), Some(ProofError::InvalidGeneratorsLength));
    assert_eq!(verify(4), Some(ProofError::VerificationError));
    assert_eq!(verify(8), None);
    assert_eq!(verify(9), Some(ProofError::VerificationError));
    let p = prove_ecp::<RistrettoPoint>::create(&mut t, 2, &g, &h, &a, 2);
    let verify = |n: usize| p.verification_scalars(n, &mut Transcript::new(b"len")).err();
    assert_eq!(verify(0), Some(ProofError::VerificationError));
    assert_eq!(verify(8), None);
    assert_eq!(verify(9), Some(ProofError::VerificationError));
}

#[test]
fn arguments_survive_their_bytes() {
    let bp = BulletproofGens::<RistrettoPoint>::new(8, 1);
    let (g, h) = (bp.G(8, 1), bp.H(8, 1));
    let (a, b) = (scalars(8, 1), scalars(8, 2));
    let q = RistrettoPoint::generator();
    let p = prove_ipa::<RistrettoPoint>::create(&mut Transcript::new(b"b"), 2, &g, &h, q, &a, &b, 2);
    let bytes = p.to_bytes();
    assert_eq!(bytes.len(), p.serialized_size());
    let read = prove_ipa::<RistrettoPoint>::from_bytes(&bytes).unwrap();
    assert_eq!(read.to_bytes(), bytes);
    assert_eq!(read.k, 2);
    assert_eq!(
        prove_ipa::<RistrettoPoint>::from_bytes(&bytes[..bytes.len() - 1]).err(),
        Some(ProofError::FormatError)
    );
    let p = prove_ecp::<RistrettoPoint>::create(&mut Transcript::new(b"b"), 2, &g, &h, &a, 2);
    let bytes = p.to_bytes();
    assert_eq!(bytes.len(), p.serialized_size());
    assert_eq!(prove_ecp::<RistrettoPoint>::from_bytes(&bytes).unwrap().to_bytes(), bytes);
    assert!(prove_ecp::<RistrettoPoint>::from_bytes(&[1, 2, 3]).is_err());
    // P-256
    let bp = BulletproofGens::<Projective>::new(4, 1);
    let (g, h) = (bp.G(4, 1), bp.H(4, 1));
    let (a, b) = (scalars(4, 1), scalars(4, 2));
    let q = Projective::generator();
    let p = prove_ipa::<Projective>::create(&mut Transcript::new(b"b"), 2, &g, &h, q, &a, &b, 1);
    let bytes = p.to_bytes();
    assert_eq!(prove_ipa::<Projective>::from_bytes(&bytes).unwrap().to_bytes(), bytes);
    assert!(prove_ipa::<Projective>::from_bytes(&bytes[..7]).is_err());
    let p = prove_ecp::<Projective>::create(&mut Transcript::new(b"b"), 2, &g, &h, &a, 1);
    let bytes = p.to_bytes();
    assert_eq!(prove_ecp::<Projective>::from_bytes(&bytes).unwrap().to_bytes(), bytes);
}

#[test]
fn strict_prefixes_of_arguments_are_refused() {
    let bp = BulletproofGens::<RistrettoPoint>::new(8, 1);
    let (g, h) = (bp.G(8, 1), bp.H(8, 1));
    let (a, b) = (scalars(8, 1), scalars(8, 2));
    let q = RistrettoPoint::generator();
    let bytes =
        prove_ipa::<RistrettoPoint>::create(&mut Transcript::new(b"b"), 2, &g, &h, q, &a, &b, 2).to_bytes();
    for j in 0..bytes.len() {
        assert_eq!(prove_ipa::<RistrettoPoint>::from_bytes(&bytes[..j]).err(), Some(ProofError::FormatError));
    }
    let bytes = prove_ecp::<RistrettoPoint>::create(&mut Transcript::new(b"b"), 2, &g, &h, &a, 2).to_bytes();
    for j in 0..bytes.len() {
        assert_eq!(prove_ecp::<RistrettoPoint>::from_bytes(&bytes[..j]).err(), Some(ProofError::FormatError));
    }
    // P-256
    let bp = BulletproofGens::<Projective>::new(4, 1);
    let (g, h) = (bp.G(4, 1), bp.H(4, 1));
    let (a, b) = (scalars(4, 1), scalars(4, 2));
    let q = Projective::generator();
    let bytes = prove_ipa::<Projective>::create(&mut Transcript::new(b"b"), 2, &g, &h, q, &a, &b, 1).to_bytes();
    for j in 0..bytes.len() {
        assert_eq!(prove_ipa::<Projective>::from_bytes(&bytes[..j]).err(), Some(ProofError::FormatError));
    }
    let bytes = prove_ecp::<Projective>::create(&mut Transcript::new(b"b"), 2, &g, &h, &a, 1).to_bytes();
    for j in 0..bytes.len() {
        assert_eq!(prove_ecp::<Projective>::from_bytes(&bytes[..j]).err(), Some(ProofError::FormatError));
    }
}

#[test]
fn padding_beforehand_keeps_the_cross_terms() {
    let bp = BulletproofGens::<RistrettoPoint>::new(10, 1);
    let (mut g, mut h) = (bp.G(10, 1), bp.H(10, 1));
    let (mut a, mut b) = (scalars(10, 1), scalars(10, 2));
    let q = RistrettoPoint::generator();
    let short =
        prove_ipa::<RistrettoPoint>::create(&mut Transcript::new(b"pad"), 3, &g, &h, q, &a, &b, 1);
    g.resize(12, RistrettoPoint::identity());
    h.resize(12, RistrettoPoint::identity());
    a.resize(12, Field::zero());
    b.resize(12, Field::zero());
    let padded =
        prove_ipa::<RistrettoPoint>::create(&mut Transcript::new(b"pad"), 3, &g, &h, q, &a, &b, 1);
    assert_eq!(short.a_final.len(), 4);
    assert_eq!(padded.a_final.len(), 4);
    assert_eq!(short.b_final.len(), padded.b_final.len());
    let terms = |p: &prove_ipa<RistrettoPoint>| -> Vec<[u8; 32]> { p.U_vecs[0].iter().map(|e| e.0).collect() };
    assert_eq!(terms(&short).len(), 4);
    assert_eq!(terms(&short), terms(&padded));
}

#[test]
fn short_second_bases_are_filled_up() {
    let bp = BulletproofGens::<RistrettoPoint>::new(9, 1);
    let (g, c) = (bp.G(9, 1), bp.H(5, 1));
    let a: Vec<Scalar> = scalars(9, 20);
    let short = prove_ecp::<RistrettoPoint>::create(&mut Transcript::new(b"fill"), 2, &g, &c, &a, 2);
    let mut full = c.clone();
    full.resize(9, RistrettoPoint::identity());
    let filled = prove_ecp::<RistrettoPoint>::create(&mut Transcript::new(b"fill"), 2, &g, &full, &a, 2);
    assert_eq!(short.to_bytes(), filled.to_bytes());
    assert_eq!(short.z.len(), 3);
    assert!(short.A_vecs.iter().all(|round| round.len() == 2));
    // The equation over the bases that were there.
    let (s_z, s_p, s_a) = short.verification_scalars(9, &mut Transcript::new(b"fill")).unwrap();
    let terms: Vec<RistrettoPoint> =
        short.A_vecs.iter().flatten().map(|e| RistrettoPoint::decode(&e[1]).unwrap()).collect();
    let left = RistrettoPoint::msm(&s_z[..5], &c);
    let right = RistrettoPoint::plus(
        RistrettoPoint::times(RistrettoPoint::msm(&a[..5], &c), s_p),
        RistrettoPoint::msm(&s_a, &terms),
    );
    assert!(same::<RistrettoPoint>(left, right));
}
