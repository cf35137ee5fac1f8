//! The groups, their encodings and the transcript.

use maya::generators::PedersenGens;
use maya::group::{Field, Group};
use maya::p256::curve::{Affine, Projective};
use maya::p256::field::Fr;
use maya::ristretto::point::{CompressedRistretto, RistrettoPoint};
use maya::ristretto::scalar::Scalar;
use maya::transcript::{TranscriptProtocol, point_to_bytes};
use merlin::Transcript;

fn encoded<G: Group>(p: G::Point) -> Vec<u8> {
    G::as_bytes(&G::encode(p)).to_vec()
}

fn arithmetic<G: Group>(b: G::Point) {
    let s = |n: u64| G::Scalar::from_u64(n);
    let mul = |n: u64| G::times(b, s(n));
    assert!(G::is_identity(G::identity()) && G::is_identity(mul(0)) && !G::is_identity(b));
    assert_eq!(encoded::<G>(G::plus(mul(3), mul(4))), encoded::<G>(mul(7)));
    assert_eq!(encoded::<G>(mul(1)), encoded::<G>(b));
    assert_ne!(encoded::<G>(mul(2)), encoded::<G>(b));
    assert_eq!(encoded::<G>(G::plus(b, G::identity())), encoded::<G>(b));
    let scalars = [s(2), s(3), s(5)];
    let points = [mul(10), mul(100), mul(1000)];
    assert_eq!(encoded::<G>(G::msm(&scalars, &points)), encoded::<G>(mul(5320)));
    assert_eq!(encoded::<G>(G::vartime_msm(&scalars, &points)), encoded::<G>(mul(5320)));
    assert!(G::is_identity(G::msm(&[], &[])));
    let e = G::encode(mul(9));
    assert_eq!(encoded::<G>(G::decode(&e).unwrap()), encoded::<G>(mul(9)));
    assert_eq!(G::as_bytes(&G::copy_encoding(&e)), G::as_bytes(&e));
    assert_eq!(G::as_bytes(&point_to_bytes::<G>(&mul(9))), G::as_bytes(&e));
}

#[test]
fn ristretto_arithmetic() {
    arithmetic::<RistrettoPoint>(RistrettoPoint::generator());
    assert!(RistrettoPoint::decode(&CompressedRistretto([0xff; 32])).is_none());
    assert_eq!(RistrettoPoint::identity().compress().0, [0u8; 32]);
    // The canonical encoding of the base point.
    assert_eq!(RistrettoPoint::generator().compress().0[..4], [0xe2, 0xf2, 0xae, 0x0a]);
    assert_eq!(Scalar::from_u64(258).as_bytes()[..3], [2, 1, 0]);
}

#[test]
fn p256_arithmetic() {
    arithmetic::<Projective>(Projective::generator());
    assert!(Projective::decode(&vec![0xff; 33]).is_none());
    assert!(Projective::decode(&Vec::new()).is_none());
    let p = Projective::generator().double();
    assert!(p == Projective::generator().add_point(Projective::generator()));
    assert!(Projective::zero().is_zero());
    let a = p.into_affine();
    assert!(a.into_group() == p);
    assert!(p.sub_affine(a).is_zero());
    assert!(p.add_affine(a) == p.double());
    let bytes = a.serialize_compressed();
    assert!(Affine::deserialize_compressed(&bytes).unwrap().into_group() == p);
    let batch = Projective::normalize_batch(&[p, Projective::zero(), p.double()]);
    assert_eq!(batch.len(), 3);
    assert!(batch[1].into_group().is_zero() && batch[2].into_group() == p.double());
    assert_eq!(Fr::from_u64(513).into_bigint(), [513, 0, 0, 0]);
    assert!(Fr::deserialize_compressed(&Fr::from_u64(5).to_bytes()).unwrap().to_bytes() == Fr::from_u64(5).to_bytes());
}

#[test]
fn commitments_add_up() {
    let pc = PedersenGens::<RistrettoPoint>::default();
    let s = Scalar::from_u64;
    let sum = RistrettoPoint::plus(pc.commit(s(3), s(40)), pc.commit(s(5), s(60)));
    assert_eq!(sum.compress().0, pc.commit(s(8), s(100)).compress().0);
    let multiple = RistrettoPoint::times(pc.commit(s(3), s(40)), s(7));
    assert_eq!(multiple.compress().0, pc.commit(s(21), s(280)).compress().0);
    assert_eq!(pc.commit(s(1), s(0)).compress().0, pc.B.compress().0);
    assert_eq!(pc.commit(s(0), s(1)).compress().0, pc.B_blinding.compress().0);
}

#[test]
fn challenges_depend_on_what_was_committed() {
    fn challenge(f: impl Fn(&mut Transcript)) -> [u8; 32] {
        let mut t = Transcript::new(b"test");
        f(&mut t);
        <Transcript as TranscriptProtocol<RistrettoPoint>>::challenge_scalar(&mut t, "c").to_bytes()
    }
    let base = challenge(|_| {});
    assert_eq!(base, challenge(|_| {}));
    let number = challenge(|t| <Transcript as TranscriptProtocol<RistrettoPoint>>::commit_u64(t, "n", 5));
    let other = challenge(|t| <Transcript as TranscriptProtocol<RistrettoPoint>>::commit_u64(t, "n", 6));
    assert!(base != number && number != other);
    // The number goes in as eight little-endian bytes.
    assert_eq!(number, challenge(|t| t.append_message(b"n", &[5, 0, 0, 0, 0, 0, 0, 0])));
    let one = Scalar::from_u64(1);
    assert_eq!(
        challenge(|t| <Transcript as TranscriptProtocol<RistrettoPoint>>::commit_scalar(t, "s", &one)),
        challenge(|t| t.append_message(b"s", one.as_bytes()))
    );
    let point = RistrettoPoint::generator().compress();
    assert_eq!(
        challenge(|t| <Transcript as TranscriptProtocol<RistrettoPoint>>::commit_point(t, "p", &point)),
        challenge(|t| t.append_message(b"p", &point.0))
    );
    assert_eq!(
        challenge(|t| <Transcript as TranscriptProtocol<RistrettoPoint>>::innerproduct_domain_sep(t, 7)),
        challenge(|t| {
            t.append_message(b"dom-sep", b"ipp v1");
            t.append_message(b"n", &[7, 0, 0, 0, 0, 0, 0, 0]);
        })
    );
    assert_eq!(
        challenge(|t| <Transcript as TranscriptProtocol<RistrettoPoint>>::r1cs_domain_sep(t)),
        challenge(|t| t.append_message(b"dom-sep", b"r1cs v1"))
    );
}

#[test]
fn p256_compressed_points() {
    let p = Projective::generator().double();
    let read = |b: &[u8]| Affine::deserialize_compressed(b).map(|a| a.into_group());
    let bytes = p.into_affine().serialize_compressed();
    assert_eq!(bytes.len(), 33);
    assert!(read(&bytes) == Some(p));
    // The other root is the negative point.
    let mut other = bytes.clone();
    other[32] ^= 0x80;
    assert!(read(&other).unwrap().add_point(p).is_zero());
    // Neither the other six bits nor what comes after them counts.
    let mut loose = bytes.clone();
    loose[32] |= 0x3f;
    loose.push(7);
    assert!(read(&loose) == Some(p));
    for n in 0..33 {
        assert!(read(&bytes[..n]).is_none());
    }
    // The point at infinity needs a residue too.
    let mut infinite = bytes.clone();
    infinite[32] = 0x40;
    assert!(read(&infinite).unwrap().is_zero());
    infinite[32] = 0xc0;
    assert!(read(&infinite).is_none());
    let mut large = vec![0xff; 32];
    large.push(0x40);
    assert!(read(&large).is_none());
    // About half of all residues belong to a point.
    let found: Vec<bool> = (0..8u8)
        .map(|x| {
            let mut b = vec![0u8; 33];
            b[0] = x;
            read(&b).is_some()
        })
        .collect();
    assert!(found.contains(&true) && found.contains(&false));
}
