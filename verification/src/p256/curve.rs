//! The points of P-256.

use ark_ec::{AdditiveGroup, AffineRepr, CurveGroup, PrimeGroup, VariableBaseMSM};
use ark_ff::{BigInt, PrimeField};
use ark_serialize::{CanonicalDeserialize, CanonicalSerialize};
use ark_std::Zero;
use vstd::prelude::*;
use crate::bytes::{le_bytes, le_value};
use crate::group::{Field, values};
use crate::modular::{add_mod, inv_mod, lemma_md_range, lemma_md_small, md, mul_mod, sub_mod};
use crate::p256::field::{Fr, lemma_order, limb_value, order, prime, root_candidate};
use crate::sums::dot;

verus! {

/// The constant coefficient of the curve.
#[verifier::opaque]
pub open spec fn coeff_b() -> int {
    41058363725152142129326129780047268409114441015993725554835256314039467401291int
}

/// The right-hand side of the equation `y^2 = x^3 - 3x + b`.
pub open spec fn curve_rhs(x: int) -> int {
    md(x * x * x - 3 * x + coeff_b(), prime())
}

/// The coordinates satisfy the equation of the curve.
pub open spec fn on_curve(x: int, y: int) -> bool {
    &&& 0 <= x < prime()
    &&& 0 <= y < prime()
    &&& md(y * y, prime()) == curve_rhs(x)
}

/// The number by which the generator of `ark_secp256r1` is multiplied to get
/// the point with given affine coordinates.
pub uninterp spec fn p256_index(x: int, y: int) -> int;

/// The affine coordinates of a multiple of the generator of `ark_secp256r1`.
pub uninterp spec fn p256_point(n: int) -> (int, int);

/// `(x, y)` is the point with index `n`.
pub open spec fn is_point(x: int, y: int, n: int) -> bool {
    &&& on_curve(x, y)
    &&& 0 < n < order()
    &&& p256_index(x, y) == n
    &&& p256_point(n) == (x, y)
}

/// The compressed encoding of the point with index `n`: its first coordinate
/// and a byte that tells the two points with this coordinate apart.
pub open spec fn compressed(n: int) -> Seq<u8> {
    if n == 0 {
        Seq::new(32, |i: int| 0u8).push(0x40)
    } else {
        let (x, y) = p256_point(n);
        le_bytes(x, 32).push(
            if 2 * y <= prime() {
                0u8
            } else {
                0x80u8
            },
        )
    }
}

/// The index of the point with a compressed encoding: 32 bytes hold its first
/// coordinate, and the two highest bits of the next byte tell whether it is the
/// point at infinity, and which of the two roots its second coordinate is. What
/// stands in the other bits and behind this byte is ignored.
pub open spec fn p256_decoding(b: Seq<u8>) -> Option<int> {
    let x = le_value(b.take(32));
    let larger = b[32] >= 128;
    let infinite = b[32] % 128 >= 64;
    let root = root_candidate(curve_rhs(x));
    let other = md(-root, prime());
    if b.len() < 33 || x >= prime() || (larger && infinite) {
        None
    } else if infinite {
        Some(0)
    } else if mul_mod(root, root, prime()) != curve_rhs(x) {
        None
    } else if larger == (root < other) {
        Some(p256_index(x, other))
    } else {
        Some(p256_index(x, root))
    }
}

/// A point in affine coordinates.
#[derive(Copy, Clone, Debug, PartialEq, Eq)]
pub struct Affine {
    x: [u64; 4],
    y: [u64; 4],
    infinity: bool,
}

/// A point in Jacobian coordinates: `(x / z^2, y / z^3)`, or the point at
/// infinity if `z` is zero.
#[derive(Copy, Clone, Debug)]
pub struct Projective {
    x: [u64; 4],
    y: [u64; 4],
    z: [u64; 4],
}

/// The index of a point.
pub closed spec fn affine_index(a: Affine) -> int {
    if a.infinity {
        0
    } else {
        md(p256_index(limb_value(a.x@), limb_value(a.y@)), order())
    }
}

/// The affine coordinates of a point in Jacobian coordinates.
spec fn dehomogenized(x: int, y: int, z: int) -> (int, int) {
    let w = inv_mod(z, prime());
    (md(x * w * w, prime()), md(y * w * w * w, prime()))
}

/// The index of a point.
pub closed spec fn point_index(p: Projective) -> int {
    if limb_value(p.z@) == 0 {
        0
    } else {
        let (x, y) = dehomogenized(limb_value(p.x@), limb_value(p.y@), limb_value(p.z@));
        md(p256_index(x, y), order())
    }
}

/// The indices of a sequence of points.
pub open spec fn affine_indices(s: Seq<Affine>) -> Seq<int> {
    Seq::new(s.len(), |i: int| affine_index(s[i]))
}

/// The indices of a sequence of points.
pub open spec fn point_indices(s: Seq<Projective>) -> Seq<int> {
    Seq::new(s.len(), |i: int| point_index(s[i]))
}

impl Affine {
    #[verifier::type_invariant]
    spec fn valid(self) -> bool {
        let (x, y) = (limb_value(self.x@), limb_value(self.y@));
        &&& x < prime()
        &&& y < prime()
        &&& self.infinity || is_point(x, y, p256_index(x, y))
    }
}

impl Projective {
    #[verifier::type_invariant]
    spec fn valid(self) -> bool {
        let (x, y, z) = (limb_value(self.x@), limb_value(self.y@), limb_value(self.z@));
        let (u, v) = dehomogenized(x, y, z);
        &&& x < prime()
        &&& y < prime()
        &&& z < prime()
        &&& z == 0 || is_point(u, v, p256_index(u, v))
    }
}

/// `a` is a representation of the point with index `n`.
pub closed spec fn is_affine(a: Affine, n: int) -> bool {
    a.valid() && affine_index(a) == n
}

/// `p` is a representation of the point with index `n`.
pub closed spec fn is_projective(p: Projective, n: int) -> bool {
    p.valid() && point_index(p) == n
}

// ---------------------------------------------------------------------------
// What arkworks computes
// ---------------------------------------------------------------------------

/// `Affine::new_unchecked` of ark-ec makes the point with coordinates that
/// satisfy the equation of the curve. The curve has a prime number of points,
/// so every point is a multiple of the generator.
#[verifier::external_body]
fn affine_new(x: [u64; 4], y: [u64; 4]) -> (r: Affine)
    requires
        on_curve(limb_value(x@), limb_value(y@)),
    ensures
        is_affine(r, p256_index(limb_value(x@), limb_value(y@))),
{
    let [x, y] = [x, y].map(|c| ark_secp256r1::Fq::from_bigint(BigInt(c)).unwrap());
    let r = ark_secp256r1::Affine::new_unchecked(x, y);
    Affine { x: r.x.into_bigint().0, y: r.y.into_bigint().0, infinity: r.infinity }
}

/// `Zero::zero` of ark-ec: the point at infinity.
#[verifier::external_body]
fn projective_zero() -> (r: Projective)
    ensures
        is_projective(r, 0),
{
    let r = ark_secp256r1::Projective::zero();
    let [x, y, z] = [r.x, r.y, r.z].map(|c| c.into_bigint().0);
    Projective { x, y, z }
}

/// `PrimeGroup::generator` of ark-ec: the generator.
#[verifier::external_body]
fn projective_generator() -> (r: Projective)
    ensures
        is_projective(r, 1),
{
    let r = ark_secp256r1::Projective::generator();
    let [x, y, z] = [r.x, r.y, r.z].map(|c| c.into_bigint().0);
    Projective { x, y, z }
}

/// The sum of two points in Jacobian coordinates in ark-ec.
#[verifier::external_body]
fn projective_add(p: Projective, q: Projective) -> (r: Projective)
    ensures
        is_projective(r, add_mod(point_index(p), point_index(q), order())),
{
    let [x, y, z] = [p.x, p.y, p.z].map(|c| ark_secp256r1::Fq::from_bigint(BigInt(c)).unwrap());
    let p = ark_secp256r1::Projective::new_unchecked(x, y, z);
    let [x, y, z] = [q.x, q.y, q.z].map(|c| ark_secp256r1::Fq::from_bigint(BigInt(c)).unwrap());
    let r = p + ark_secp256r1::Projective::new_unchecked(x, y, z);
    let [x, y, z] = [r.x, r.y, r.z].map(|c| c.into_bigint().0);
    Projective { x, y, z }
}

/// The sum of a point in Jacobian and one in affine coordinates in ark-ec.
#[verifier::external_body]
fn projective_add_affine(p: Projective, a: Affine) -> (r: Projective)
    ensures
        is_projective(r, add_mod(point_index(p), affine_index(a), order())),
{
    let [x, y, z] = [p.x, p.y, p.z].map(|c| ark_secp256r1::Fq::from_bigint(BigInt(c)).unwrap());
    let p = ark_secp256r1::Projective::new_unchecked(x, y, z);
    let [x, y] = [a.x, a.y].map(|c| ark_secp256r1::Fq::from_bigint(BigInt(c)).unwrap());
    let r = p + ark_secp256r1::Affine { x, y, infinity: a.infinity };
    let [x, y, z] = [r.x, r.y, r.z].map(|c| c.into_bigint().0);
    Projective { x, y, z }
}

/// The difference of a point in Jacobian and one in affine coordinates in
/// ark-ec.
#[verifier::external_body]
fn projective_sub_affine(p: Projective, a: Affine) -> (r: Projective)
    ensures
        is_projective(r, sub_mod(point_index(p), affine_index(a), order())),
{
    let [x, y, z] = [p.x, p.y, p.z].map(|c| ark_secp256r1::Fq::from_bigint(BigInt(c)).unwrap());
    let p = ark_secp256r1::Projective::new_unchecked(x, y, z);
    let [x, y] = [a.x, a.y].map(|c| ark_secp256r1::Fq::from_bigint(BigInt(c)).unwrap());
    let r = p - ark_secp256r1::Affine { x, y, infinity: a.infinity };
    let [x, y, z] = [r.x, r.y, r.z].map(|c| c.into_bigint().0);
    Projective { x, y, z }
}

/// `AdditiveGroup::double` of ark-ec: twice the point.
#[verifier::external_body]
fn projective_double(p: Projective) -> (r: Projective)
    ensures
        is_projective(r, mul_mod(2, point_index(p), order())),
{
    let [x, y, z] = [p.x, p.y, p.z].map(|c| ark_secp256r1::Fq::from_bigint(BigInt(c)).unwrap());
    let r = ark_secp256r1::Projective::new_unchecked(x, y, z).double();
    let [x, y, z] = [r.x, r.y, r.z].map(|c| c.into_bigint().0);
    Projective { x, y, z }
}

/// The product of a point and a scalar in ark-ec.
#[verifier::external_body]
fn projective_mul(p: Projective, s: Fr) -> (r: Projective)
    ensures
        is_projective(r, mul_mod(point_index(p), s.value(), order())),
{
    let [x, y, z] = [p.x, p.y, p.z].map(|c| ark_secp256r1::Fq::from_bigint(BigInt(c)).unwrap());
    let s = ark_secp256r1::Fr::from_bigint(BigInt(s.limbs)).unwrap();
    let r = ark_secp256r1::Projective::new_unchecked(x, y, z) * s;
    let [x, y, z] = [r.x, r.y, r.z].map(|c| c.into_bigint().0);
    Projective { x, y, z }
}

/// The comparison of two points in Jacobian coordinates in ark-ec: whether
/// they represent one point.
#[verifier::external_body]
fn projective_eq(p: &Projective, q: &Projective) -> (r: bool)
    ensures
        r == (point_index(*p) == point_index(*q)),
{
    let [x, y, z] = [p.x, p.y, p.z].map(|c| ark_secp256r1::Fq::from_bigint(BigInt(c)).unwrap());
    let p = ark_secp256r1::Projective::new_unchecked(x, y, z);
    let [x, y, z] = [q.x, q.y, q.z].map(|c| ark_secp256r1::Fq::from_bigint(BigInt(c)).unwrap());
    p == ark_secp256r1::Projective::new_unchecked(x, y, z)
}

/// `CurveGroup::into_affine` of ark-ec: the affine coordinates of the point.
#[verifier::external_body]
fn projective_into_affine(p: Projective) -> (r: Affine)
    ensures
        is_affine(r, point_index(p)),
{
    let [x, y, z] = [p.x, p.y, p.z].map(|c| ark_secp256r1::Fq::from_bigint(BigInt(c)).unwrap());
    let r = ark_secp256r1::Projective::new_unchecked(x, y, z).into_affine();
    Affine { x: r.x.into_bigint().0, y: r.y.into_bigint().0, infinity: r.infinity }
}

/// `CurveGroup::normalize_batch` of ark-ec: the affine coordinates of the
/// points.
#[verifier::external_body]
fn projective_normalize_batch(points: &[Projective]) -> (r: Vec<Affine>)
    ensures
        r@.len() == points@.len(),
        forall|i: int| 0 <= i < points@.len() ==> is_affine(#[trigger] r@[i], point_index(points@[i])),
{
    let fq = |c: [u64; 4]| ark_secp256r1::Fq::from_bigint(BigInt(c)).unwrap();
    let v: Vec<ark_secp256r1::Projective> = points.iter().map(
        |p| ark_secp256r1::Projective::new_unchecked(fq(p.x), fq(p.y), fq(p.z)),
    ).collect();
    ark_secp256r1::Projective::normalize_batch(&v).iter().map(
        |a| Affine { x: a.x.into_bigint().0, y: a.y.into_bigint().0, infinity: a.infinity },
    ).collect()
}

/// `VariableBaseMSM::msm` of ark-ec: the linear combination of as many points
/// as there are scalars.
#[verifier::external_body]
fn affine_msm(bases: &[Affine], scalars: &[Fr]) -> (r: Projective)
    requires
        bases@.len() == scalars@.len(),
    ensures
        is_projective(r, md(dot(values(scalars@), affine_indices(bases@)), order())),
{
    let fq = |c: [u64; 4]| ark_secp256r1::Fq::from_bigint(BigInt(c)).unwrap();
    let bases: Vec<ark_secp256r1::Affine> = bases.iter().map(
        |a| ark_secp256r1::Affine { x: fq(a.x), y: fq(a.y), infinity: a.infinity },
    ).collect();
    let scalars: Vec<ark_secp256r1::Fr> = scalars.iter().map(
        |s| ark_secp256r1::Fr::from_bigint(BigInt(s.limbs)).unwrap(),
    ).collect();
    let r = ark_secp256r1::Projective::msm(&bases, &scalars).unwrap();
    let [x, y, z] = [r.x, r.y, r.z].map(|c| c.into_bigint().0);
    Projective { x, y, z }
}

/// `AffineRepr::into_group` of ark-ec: the point in Jacobian coordinates.
#[verifier::external_body]
fn affine_into_group(a: Affine) -> (r: Projective)
    ensures
        is_projective(r, affine_index(a)),
{
    let [x, y] = [a.x, a.y].map(|c| ark_secp256r1::Fq::from_bigint(BigInt(c)).unwrap());
    let r = ark_secp256r1::Affine { x, y, infinity: a.infinity }.into_group();
    let [x, y, z] = [r.x, r.y, r.z].map(|c| c.into_bigint().0);
    Projective { x, y, z }
}

/// `CanonicalSerialize::serialize_compressed` of `ark_secp256r1::Affine` writes
/// the compressed encoding, which can be read back.
#[verifier::external_body]
fn affine_serialize(a: Affine) -> (r: Vec<u8>)
    ensures
        r@.len() == 33,
        r@ == compressed(affine_index(a)),
        affine_index(a) != 0 ==> r@.take(32) == le_bytes(p256_point(affine_index(a)).0, 32),
        p256_decoding(r@) == Some(affine_index(a)),
{
    let [x, y] = [a.x, a.y].map(|c| ark_secp256r1::Fq::from_bigint(BigInt(c)).unwrap());
    let mut buf = Vec::new();
    ark_secp256r1::Affine { x, y, infinity: a.infinity }.serialize_compressed(&mut buf).unwrap();
    buf
}

/// `CanonicalDeserialize::deserialize_compressed` of `ark_secp256r1::Affine`
/// reads the point with this encoding, and fails if there are too few bytes, if
/// both flags are set, if the coordinate is no residue, or if no point has it.
#[verifier::external_body]
fn affine_deserialize(b: &[u8]) -> (r: Option<Affine>)
    ensures
        r is Some <==> p256_decoding(b@) is Some,
        r matches Some(a) ==> is_affine(a, p256_decoding(b@)->0),
{
    ark_secp256r1::Affine::deserialize_compressed(b).ok().map(
        |a| Affine { x: a.x.into_bigint().0, y: a.y.into_bigint().0, infinity: a.infinity },
    )
}

// ---------------------------------------------------------------------------
// The operations on points
// ---------------------------------------------------------------------------

/// Indices are residues.
pub proof fn lemma_affine_index(a: Affine)
    ensures
        0 <= affine_index(a) < order(),
        md(affine_index(a), order()) == affine_index(a),
{
    lemma_order();
    lemma_md_small(0, order());
    lemma_md_range(p256_index(limb_value(a.x@), limb_value(a.y@)), order());
}

/// Indices are residues.
pub proof fn lemma_point_index(p: Projective)
    ensures
        0 <= point_index(p) < order(),
        md(point_index(p), order()) == point_index(p),
{
    lemma_order();
    lemma_md_small(0, order());
    let (x, y) = dehomogenized(limb_value(p.x@), limb_value(p.y@), limb_value(p.z@));
    lemma_md_range(p256_index(x, y), order());
}

impl Affine {
    /// The point with coordinates that satisfy the equation of the curve.
    pub(crate) fn new(x: [u64; 4], y: [u64; 4]) -> (r: Self)
        requires
            on_curve(limb_value(x@), limb_value(y@)),
        ensures
            affine_index(r) == p256_index(limb_value(x@), limb_value(y@)),
    {
        affine_new(x, y)
    }

    /// The point in Jacobian coordinates.
    pub fn into_group(self) -> (r: Projective)
        ensures
            point_index(r) == affine_index(self),
    {
        affine_into_group(self)
    }

    /// The compressed encoding of the point.
    pub fn serialize_compressed(self) -> (r: Vec<u8>)
        ensures
            r@.len() == 33,
            r@ == compressed(affine_index(self)),
            p256_decoding(r@) == Some(affine_index(self)),
    {
        affine_serialize(self)
    }

    /// Reads a point from its compressed encoding.
    pub fn deserialize_compressed(b: &[u8]) -> (r: Option<Self>)
        ensures
            r is Some <==> p256_decoding(b@) is Some,
            r matches Some(a) ==> Some(affine_index(a)) == p256_decoding(b@),
    {
        affine_deserialize(b)
    }
}

impl Projective {
    /// The point at infinity.
    pub fn zero() -> (r: Self)
        ensures
            point_index(r) == 0,
    {
        projective_zero()
    }

    /// The generator.
    pub fn generator() -> (r: Self)
        ensures
            point_index(r) == 1,
    {
        projective_generator()
    }

    /// Whether this is the point at infinity.
    pub fn is_zero(self) -> (r: bool)
        ensures
            r == (point_index(self) == 0),
    {
        proof {
            use_type_invariant(&self);
            let (x, y) = dehomogenized(limb_value(self.x@), limb_value(self.y@), limb_value(self.z@));
            if limb_value(self.z@) != 0 {
                lemma_md_small(p256_index(x, y), order());
            }
        }
        self.z[0] == 0 && self.z[1] == 0 && self.z[2] == 0 && self.z[3] == 0
    }

    /// The sum of two points.
    pub fn add_point(self, other: Self) -> (r: Self)
        ensures
            point_index(r) == add_mod(point_index(self), point_index(other), order()),
    {
        projective_add(self, other)
    }

    /// The sum with a point in affine coordinates.
    pub fn add_affine(self, other: Affine) -> (r: Self)
        ensures
            point_index(r) == add_mod(point_index(self), affine_index(other), order()),
    {
        projective_add_affine(self, other)
    }

    /// The difference with a point in affine coordinates.
    pub fn sub_affine(self, other: Affine) -> (r: Self)
        ensures
            point_index(r) == sub_mod(point_index(self), affine_index(other), order()),
    {
        projective_sub_affine(self, other)
    }

    /// Twice the point.
    pub fn double(self) -> (r: Self)
        ensures
            point_index(r) == mul_mod(2, point_index(self), order()),
    {
        projective_double(self)
    }

    /// The product with a scalar.
    pub fn mul_scalar(self, s: Fr) -> (r: Self)
        ensures
            point_index(r) == mul_mod(point_index(self), s.value(), order()),
    {
        projective_mul(self, s)
    }

    /// The affine coordinates of the point.
    pub fn into_affine(self) -> (r: Affine)
        ensures
            affine_index(r) == point_index(self),
    {
        projective_into_affine(self)
    }

    /// The affine coordinates of several points.
    pub fn normalize_batch(points: &[Projective]) -> (r: Vec<Affine>)
        ensures
            r@.len() == points@.len(),
            affine_indices(r@) == point_indices(points@),
    {
        let r = projective_normalize_batch(points);
        assert(affine_indices(r@) =~= point_indices(points@)) by {
            assert forall|i: int| 0 <= i < r@.len() implies affine_index(r@[i]) == point_index(points@[i]) by {
                assert(is_affine(r@[i], point_index(points@[i])));
            }
        }
        r
    }

    /// The linear combination of points in affine coordinates.
    pub fn multi_scalar_mul(bases: &[Affine], scalars: &[Fr]) -> (r: Self)
        requires
            bases@.len() == scalars@.len(),
        ensures
            point_index(r) == md(dot(values(scalars@), affine_indices(bases@)), order()),
    {
        affine_msm(bases, scalars)
    }
}

impl PartialEq for Projective {
    fn eq(&self, other: &Self) -> (r: bool) {
        projective_eq(self, other)
    }
}

impl vstd::std_specs::cmp::PartialEqSpecImpl for Projective {
    open spec fn obeys_eq_spec() -> bool {
        true
    }

    /// Two representations are equal if they are of one point.
    open spec fn eq_spec(&self, other: &Self) -> bool {
        point_index(*self) == point_index(*other)
    }
}

/// The points of the curve are those of `y^2 = x^3 - 3 x + b`, with this `b` in
/// hexadecimal.
pub proof fn law_curve(x: int, y: int)
    ensures
        on_curve(x, y) <==> 0 <= x < prime() && 0 <= y < prime() && (y * y - (x * x * x - 3 * x
            + 0x5ac635d8aa3a93e7b3ebbd55769886bc651d06b0cc53b0f63bce3c3e27d2604bint)) % prime() == 0,
{
    reveal(coeff_b);
    reveal(md);
    crate::p256::field::lemma_prime();
    vstd::arithmetic::div_mod::lemma_mod_equivalence(y * y, x * x * x - 3 * x + coeff_b(), prime());
}

} // verus!
