//! The group Ristretto255.

use vstd::prelude::*;
use crate::group::{Field, Group, values};
use crate::modular::{add_mod, lemma_md_range, lemma_md_small, md, mul_mod};
use crate::ristretto::scalar::{Scalar, lemma_order, order};
use crate::sums::dot;

verus! {

/// The index of the element that `CompressedRistretto::decompress` of
/// curve25519-dalek gives for some bytes: the multiple of the basepoint that it
/// is.
pub uninterp spec fn ristretto_index(b: Seq<u8>) -> Option<int>;

/// The bytes that `RistrettoPoint::compress` of curve25519-dalek gives for a
/// multiple of the basepoint.
pub uninterp spec fn ristretto_encoding(n: int) -> Seq<u8>;

/// The index of the element that `RistrettoPoint::from_uniform_bytes` of
/// curve25519-dalek maps 64 bytes to.
pub uninterp spec fn ristretto_from_uniform(b: Seq<u8>) -> int;

/// `b` is the encoding of the element with index `n`.
pub open spec fn is_point(b: Seq<u8>, n: int) -> bool {
    &&& 0 <= n < order()
    &&& b.len() == 32
    &&& b == ristretto_encoding(n)
    &&& ristretto_index(b) == Some(n)
}

/// An element of the group, by its encoding.
#[derive(Copy, Clone, Debug, PartialEq, Eq)]
pub struct RistrettoPoint {
    bytes: [u8; 32],
}

/// The index of an element.
pub closed spec fn point_index(p: RistrettoPoint) -> int {
    md(ristretto_index(p.bytes@)->0, order())
}

/// The indices of a sequence of elements.
pub open spec fn point_indices(s: Seq<RistrettoPoint>) -> Seq<int> {
    Seq::new(s.len(), |i: int| point_index(s[i]))
}

/// 32 bytes that may be the encoding of an element.
#[derive(Copy, Clone, Debug, PartialEq, Eq)]
pub struct CompressedRistretto(pub [u8; 32]);

impl CompressedRistretto {
    /// Views the bytes.
    pub fn as_bytes(&self) -> (r: &[u8; 32])
        ensures
            *r == self.0,
    {
        &self.0
    }
}

/// `CompressedRistretto::decompress` of curve25519-dalek finds an element
/// exactly if the bytes are the canonical encoding of one.
#[verifier::external_body]
fn is_canonical(bytes: [u8; 32]) -> (r: bool)
    ensures
        r == ristretto_index(bytes@) is Some,
        r ==> is_point(bytes@, ristretto_index(bytes@)->0),
        r ==> bytes@ == ristretto_encoding(ristretto_index(bytes@)->0),
{
    curve25519_dalek::ristretto::CompressedRistretto(bytes).decompress().is_some()
}

/// `RistrettoPoint::identity` of curve25519-dalek: the neutral element.
#[verifier::external_body]
fn point_identity() -> (r: [u8; 32])
    ensures
        is_point(r@, 0),
{
    <curve25519_dalek::ristretto::RistrettoPoint as curve25519_dalek::traits::Identity>::identity()
        .compress()
        .to_bytes()
}

/// `RISTRETTO_BASEPOINT_POINT` of curve25519-dalek: the generator.
#[verifier::external_body]
fn point_generator() -> (r: [u8; 32])
    ensures
        is_point(r@, 1),
{
    curve25519_dalek::constants::RISTRETTO_BASEPOINT_POINT.compress().to_bytes()
}

/// `IsIdentity::is_identity` of curve25519-dalek, on the encoding of an
/// element: whether the element is the neutral one.
#[verifier::external_body]
fn point_is_identity(p: [u8; 32]) -> (r: bool)
    requires
        ristretto_index(p@) is Some,
    ensures
        r == (ristretto_index(p@) == Some(0int)),
{
    let p = curve25519_dalek::ristretto::CompressedRistretto(p).decompress().unwrap();
    curve25519_dalek::traits::IsIdentity::is_identity(&p)
}

/// The sum of two elements in curve25519-dalek: the indices add up.
#[verifier::external_body]
fn point_add(p: [u8; 32], q: [u8; 32]) -> (r: [u8; 32])
    requires
        ristretto_index(p@) is Some,
        ristretto_index(q@) is Some,
    ensures
        is_point(r@, add_mod(ristretto_index(p@)->0, ristretto_index(q@)->0, order())),
{
    let p = curve25519_dalek::ristretto::CompressedRistretto(p).decompress().unwrap();
    let q = curve25519_dalek::ristretto::CompressedRistretto(q).decompress().unwrap();
    (p + q).compress().to_bytes()
}

/// The product of an element and a scalar in curve25519-dalek: the index is
/// multiplied.
#[verifier::external_body]
fn point_mul(p: [u8; 32], s: Scalar) -> (r: [u8; 32])
    requires
        ristretto_index(p@) is Some,
    ensures
        is_point(r@, mul_mod(ristretto_index(p@)->0, s.value(), order())),
{
    let p = curve25519_dalek::ristretto::CompressedRistretto(p).decompress().unwrap();
    let s = curve25519_dalek::scalar::Scalar::from_bytes_mod_order(s.bytes);
    (p * s).compress().to_bytes()
}

/// `MultiscalarMul::multiscalar_mul` of curve25519-dalek: the linear
/// combination of the elements, for as many scalars as there are elements.
#[verifier::external_body]
fn point_msm(scalars: &[Scalar], points: &[RistrettoPoint]) -> (r: [u8; 32])
    requires
        scalars@.len() == points@.len(),
    ensures
        is_point(r@, md(dot(values(scalars@), point_indices(points@)), order())),
{
    <curve25519_dalek::ristretto::RistrettoPoint as curve25519_dalek::traits::MultiscalarMul>::multiscalar_mul(
        scalars.iter().map(|s| curve25519_dalek::scalar::Scalar::from_bytes_mod_order(s.bytes)),
        points.iter().map(
            |p| curve25519_dalek::ristretto::CompressedRistretto(p.bytes).decompress().unwrap(),
        ),
    ).compress().to_bytes()
}

/// `VartimeMultiscalarMul::vartime_multiscalar_mul` of curve25519-dalek: the
/// same linear combination, in a time that depends on the arguments.
#[verifier::external_body]
fn point_vartime_msm(scalars: &[Scalar], points: &[RistrettoPoint]) -> (r: [u8; 32])
    requires
        scalars@.len() == points@.len(),
    ensures
        is_point(r@, md(dot(values(scalars@), point_indices(points@)), order())),
{
    <curve25519_dalek::ristretto::RistrettoPoint as curve25519_dalek::traits::VartimeMultiscalarMul>
        ::vartime_multiscalar_mul(
        scalars.iter().map(|s| curve25519_dalek::scalar::Scalar::from_bytes_mod_order(s.bytes)),
        points.iter().map(
            |p| curve25519_dalek::ristretto::CompressedRistretto(p.bytes).decompress().unwrap(),
        ),
    ).compress().to_bytes()
}

/// `RistrettoPoint::from_uniform_bytes` of curve25519-dalek maps 64 bytes to an
/// element.
#[verifier::external_body]
fn point_from_uniform(bytes: &[u8; 64]) -> (r: [u8; 32])
    ensures
        is_point(r@, ristretto_from_uniform(bytes@)),
{
    curve25519_dalek::ristretto::RistrettoPoint::from_uniform_bytes(bytes).compress().to_bytes()
}

impl RistrettoPoint {
    #[verifier::type_invariant]
    spec fn valid(self) -> bool {
        is_point(self.bytes@, ristretto_index(self.bytes@)->0)
    }

    /// The element with a given encoding.
    fn of(bytes: [u8; 32], Ghost(n): Ghost<int>) -> (r: Self)
        requires
            is_point(bytes@, n),
        ensures
            point_index(r) == n,
    {
        proof {
            lemma_md_small(n, order());
        }
        RistrettoPoint { bytes }
    }

    /// The encoding of the element.
    fn to_bytes(&self) -> (r: [u8; 32])
        ensures
            is_point(r@, point_index(*self)),
    {
        proof {
            use_type_invariant(self);
            lemma_md_small(ristretto_index(self.bytes@)->0, order());
        }
        self.bytes
    }

    /// The generator.
    pub fn generator() -> (r: Self)
        ensures
            point_index(r) == 1,
    {
        RistrettoPoint::of(point_generator(), Ghost(1))
    }

    /// Maps 64 bytes to an element.
    pub fn from_uniform_bytes(bytes: &[u8; 64]) -> (r: Self)
        ensures
            point_index(r) == ristretto_from_uniform(bytes@),
    {
        RistrettoPoint::of(point_from_uniform(bytes), Ghost(ristretto_from_uniform(bytes@)))
    }

    /// The encoding of the element.
    pub fn compress(&self) -> (r: CompressedRistretto)
        ensures
            is_point(r.0@, point_index(*self)),
    {
        CompressedRistretto(self.to_bytes())
    }
}

impl Group for RistrettoPoint {
    type Scalar = Scalar;

    type Point = RistrettoPoint;

    type Encoding = CompressedRistretto;

    open spec fn index(p: RistrettoPoint) -> int {
        point_index(p)
    }

    open spec fn bytes(e: CompressedRistretto) -> Seq<u8> {
        e.0@
    }

    open spec fn encoding(n: int) -> Seq<u8> {
        ristretto_encoding(n)
    }

    open spec fn decoding(b: Seq<u8>) -> Option<int> {
        match ristretto_index(b) {
            Some(n) => Some(md(n, order())),
            None => None,
        }
    }

    proof fn index_range(p: RistrettoPoint) {
        lemma_order();
        lemma_md_range(ristretto_index(p.bytes@)->0, order());
    }

    proof fn decoding_range(b: Seq<u8>) {
        lemma_order();
        if ristretto_index(b) is Some {
            lemma_md_range(ristretto_index(b)->0, order());
        }
    }

    fn identity() -> (r: RistrettoPoint) {
        RistrettoPoint::of(point_identity(), Ghost(0))
    }

    fn is_identity(p: RistrettoPoint) -> (r: bool) {
        point_is_identity(p.to_bytes())
    }

    fn plus(p: RistrettoPoint, q: RistrettoPoint) -> (r: RistrettoPoint) {
        let ghost n = add_mod(point_index(p), point_index(q), order());
        RistrettoPoint::of(point_add(p.to_bytes(), q.to_bytes()), Ghost(n))
    }

    fn times(p: RistrettoPoint, s: Scalar) -> (r: RistrettoPoint) {
        let ghost n = mul_mod(point_index(p), s.value(), order());
        RistrettoPoint::of(point_mul(p.to_bytes(), s), Ghost(n))
    }

    fn msm(scalars: &[Scalar], points: &[RistrettoPoint]) -> (r: RistrettoPoint) {
        let ghost n = md(dot(values(scalars@), point_indices(points@)), order());
        assert(Seq::new(points@.len(), |i: int| Self::index(points@[i])) =~= point_indices(points@));
        RistrettoPoint::of(point_msm(scalars, points), Ghost(n))
    }

    fn vartime_msm(scalars: &[Scalar], points: &[RistrettoPoint]) -> (r: RistrettoPoint) {
        let ghost n = md(dot(values(scalars@), point_indices(points@)), order());
        assert(Seq::new(points@.len(), |i: int| Self::index(points@[i])) =~= point_indices(points@));
        RistrettoPoint::of(point_vartime_msm(scalars, points), Ghost(n))
    }

    fn encode(p: RistrettoPoint) -> (r: CompressedRistretto) {
        let e = p.compress();
        proof {
            lemma_md_small(point_index(p), order());
        }
        e
    }

    fn decode(e: &CompressedRistretto) -> (r: Option<RistrettoPoint>) {
        if is_canonical(e.0) {
            let ghost n = ristretto_index(e.0@)->0;
            proof {
                lemma_md_small(n, order());
            }
            Some(RistrettoPoint::of(e.0, Ghost(n)))
        } else {
            None
        }
    }

    fn as_bytes(e: &CompressedRistretto) -> (r: &[u8]) {
        e.0.as_slice()
    }

    fn copy_encoding(e: &CompressedRistretto) -> (r: CompressedRistretto) {
        *e
    }
}

} // verus!
