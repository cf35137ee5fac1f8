//! Generators of both groups.

use ark_ec::{AffineRepr, CurveGroup};
use ark_ff::{Field as ArkField, PrimeField};
use ark_serialize::CanonicalSerialize;
use curve25519_dalek::constants::{RISTRETTO_BASEPOINT_COMPRESSED, RISTRETTO_BASEPOINT_POINT};
use digest::{ExtendableOutput, Update, XofReader};
use maya::generators::{BulletproofGens, HashToGroup, PedersenGens};
use maya::group::{Field, Group};
use maya::p256::curve::Projective;
use maya::p256::field::Fr;
use maya::p256::generators::GeneratorsChain as HashedChain;
use maya::ristretto::generators::GeneratorsChain;
use maya::ristretto::point::RistrettoPoint;
use maya::ristretto::scalar::Scalar;

#[test]
fn aggregated_gens_iter_matches_flat_map() {
    let gens = BulletproofGens::<RistrettoPoint>::new(64, 8);

    let helper = |n: usize, m: usize| {
        let agg_G: Vec<RistrettoPoint> = gens.G(n, m);
        let flat_G: Vec<RistrettoPoint> = gens
            .G_vec
            .iter()
            .take(m)
            .flat_map(move |G_j| G_j.iter().take(n))
            .cloned()
            .collect();

        let agg_H: Vec<RistrettoPoint> = gens.H(n, m);
        let flat_H: Vec<RistrettoPoint> = gens
            .H_vec
            .iter()
            .take(m)
            .flat_map(move |H_j| H_j.iter().take(n))
            .cloned()
            .collect();

        assert_eq!(agg_G, flat_G);
        assert_eq!(agg_H, flat_H);
    };

    helper(64, 8);
    helper(64, 4);
    helper(64, 2);
    helper(64, 1);
    helper(32, 8);
    helper(32, 4);
    helper(32, 2);
    helper(32, 1);
    helper(16, 8);
    helper(16, 4);
    helper(16, 2);
    helper(16, 1);
}

#[test]
fn ristretto_generators_match_the_hash() {
    let pc = PedersenGens::<RistrettoPoint>::default();
    assert_eq!(pc.B.compress().0, RISTRETTO_BASEPOINT_POINT.compress().to_bytes());
    let hash: [u8; 64] = <sha3::Sha3_512 as sha3::Digest>::digest(RISTRETTO_BASEPOINT_COMPRESSED.as_bytes()).into();
    let blinding = curve25519_dalek::ristretto::RistrettoPoint::from_uniform_bytes(&hash);
    assert_eq!(pc.B_blinding.compress().0, blinding.compress().to_bytes());
    let mut input = b"PedersenGens_F".to_vec();
    input.extend_from_slice(RISTRETTO_BASEPOINT_COMPRESSED.as_bytes());
    let hash: [u8; 64] = <sha3::Sha3_512 as sha3::Digest>::digest(&input).into();
    let f = curve25519_dalek::ristretto::RistrettoPoint::from_uniform_bytes(&hash);
    assert_eq!(pc.F.compress().0, f.compress().to_bytes());

    let gens = BulletproofGens::<RistrettoPoint>::new(5, 2);
    assert_eq!((gens.gens_capacity, gens.party_capacity), (5, 2));
    for (letter, vecs) in [(b'G', &gens.G_vec), (b'H', &gens.H_vec)] {
        assert_eq!(vecs.len(), 2);
        for (party, points) in vecs.iter().enumerate() {
            let mut shake = sha3::Shake256::default();
            shake.update(b"GeneratorsChain");
            shake.update(&[letter, party as u8, 0, 0, 0]);
            let mut reader = shake.finalize_xof();
            assert_eq!(points.len(), 5);
            for p in points {
                let mut bytes = [0u8; 64];
                reader.read(&mut bytes);
                let q = curve25519_dalek::ristretto::RistrettoPoint::from_uniform_bytes(&bytes);
                assert_eq!(p.compress().0, q.compress().to_bytes());
            }
        }
    }
    let mut chain = GeneratorsChain::new(&[b'G', 1, 0, 0, 0]);
    for p in &gens.G_vec[1] {
        assert_eq!(chain.next(), Some(*p));
    }
    assert!(GeneratorsChain::default().next() != chain.next());
}

#[test]
fn p256_generators_match_the_hash() {
    let expected = |label: &[u8], n: usize| {
        let mut shake = sha3::Shake256::default();
        shake.update(b"GeneratorsChain");
        shake.update(label);
        let mut reader = shake.finalize_xof();
        let mut out: Vec<Vec<u8>> = Vec::new();
        while out.len() < n {
            let mut bytes = [0u8; 64];
            reader.read(&mut bytes);
            let x = ark_secp256r1::Fq::from_le_bytes_mod_order(&bytes);
            let b = <ark_secp256r1::Config as ark_ec::short_weierstrass::SWCurveConfig>::COEFF_B;
            let rhs = x * x * x - x - x - x + b;
            let found = ArkField::sqrt(&rhs);
            assert_eq!(Projective::try_from_uniform_bytes(&bytes).is_some(), found.is_some());
            if let Some(y) = found {
                let a = ark_secp256r1::Affine::new_unchecked(x, y);
                let mut buf = Vec::new();
                a.into_group().into_affine().serialize_compressed(&mut buf).unwrap();
                out.push(buf);
            }
        }
        out
    };
    let pc = PedersenGens::<Projective>::default();
    let want = expected(b"PedersenGens", 3);
    assert_eq!(Projective::encode(pc.B), want[0]);
    assert_eq!(Projective::encode(pc.B_blinding), want[1]);
    assert_eq!(Projective::encode(pc.F), want[2]);

    let gens = BulletproofGens::<Projective>::new(6, 2);
    for (letter, vecs) in [(b'G', &gens.G_vec), (b'H', &gens.H_vec)] {
        for (party, points) in vecs.iter().enumerate() {
            let want = expected(&[letter, party as u8, 0, 0, 0], 6);
            let got: Vec<Vec<u8>> = points.iter().map(|p| Projective::encode(*p)).collect();
            assert_eq!(got, want);
        }
    }
    let mut chain = HashedChain::<Projective>::new(b"PedersenGens");
    assert!(chain.next() == Some(pc.B));
    assert!(chain.try_next() == Some(pc.B_blinding));
    assert!(chain.next() == Some(pc.F));
}

#[test]
fn shares_and_commitments() {
    let gens = BulletproofGens::<RistrettoPoint>::new(4, 3);
    let share = gens.share(2);
    assert_eq!(share.G(3), gens.G_vec[2][..3].to_vec());
    assert_eq!(share.H(9), gens.H_vec[2]);
    assert_eq!(gens.G(0, 2), vec![]);
    let copy = share;
    assert_eq!(copy.G(3), share.G(3));
    let cloned = gens.clone();
    assert_eq!(cloned.gens_capacity, 4);
    assert_eq!(cloned.G_vec, gens.G_vec);

    let pc = PedersenGens::<RistrettoPoint>::default();
    let (a, b) = (Scalar::from_u64(11), Scalar::from_u64(31));
    let expected = RistrettoPoint::msm(&[a, b], &[pc.B, pc.B_blinding]);
    assert_eq!(pc.commit(a, b), expected);
    // The sum of two commitments is a commitment to the sums.
    let (c, d) = (Scalar::from_u64(7), Scalar::from_u64(8));
    assert_eq!(RistrettoPoint::plus(pc.commit(a, b), pc.commit(c, d)), pc.commit(a.plus(c), b.plus(d)));

    let pc = PedersenGens::<Projective>::default();
    let (a, b) = (Fr::from_u64(11), Fr::from_u64(31));
    assert!(pc.commit(a, b) == Projective::msm(&[a, b], &[pc.B, pc.B_blinding]));
}

#[test]
fn p256_generators_can_be_asked_for() {
    let gens = BulletproofGens::<Projective>::new(5, 2);
    let tried = BulletproofGens::<Projective>::try_new(5, 2).unwrap();
    assert_eq!(tried.gens_capacity, 5);
    assert_eq!(tried.party_capacity, 2);
    assert!(tried.G_vec == gens.G_vec && tried.H_vec == gens.H_vec);
    let pc = PedersenGens::<Projective>::default();
    let tried = PedersenGens::<Projective>::try_default().unwrap();
    assert!(tried.B == pc.B && tried.B_blinding == pc.B_blinding && tried.F == pc.F);
}
