//! The prime-order groups and scalar fields that the proofs work in.

use vstd::prelude::*;
use crate::bytes::{le_bytes, le_value};
use crate::modular::{add_mod, inv_mod, is_inverse, md, mul_mod, sub_mod};
use crate::sums::dot;

verus! {

/// The integers modulo the order of a group.
pub trait Field: Copy {
    /// The order of the group.
    spec fn modulus() -> int;

    /// The residue that the element stands for.
    spec fn value(self) -> int;

    proof fn modulus_range()
        ensures
            1 < Self::modulus() < vstd::arithmetic::power::pow(256, 32),
    ;

    /// The order of the group is divisible neither by two nor by three.
    proof fn small_units()
        ensures
            is_inverse(2, (Self::modulus() + 1) / 2, Self::modulus()),
            is_inverse(3, (2 * Self::modulus() + 1) / 3, Self::modulus()),
    ;

    proof fn value_range(self)
        ensures
            0 <= self.value() < Self::modulus(),
            md(self.value(), Self::modulus()) == self.value(),
    ;

    fn zero() -> (r: Self)
        ensures
            r.value() == 0,
    ;

    fn one() -> (r: Self)
        ensures
            r.value() == 1,
    ;

    fn from_u64(n: u64) -> (r: Self)
        ensures
            r.value() == md(n as int, Self::modulus()),
    ;

    fn plus(self, other: Self) -> (r: Self)
        ensures
            r.value() == add_mod(self.value(), other.value(), Self::modulus()),
    ;

    fn minus(self, other: Self) -> (r: Self)
        ensures
            r.value() == sub_mod(self.value(), other.value(), Self::modulus()),
    ;

    fn times(self, other: Self) -> (r: Self)
        ensures
            r.value() == mul_mod(self.value(), other.value(), Self::modulus()),
    ;

    fn negate(self) -> (r: Self)
        ensures
            r.value() == sub_mod(0, self.value(), Self::modulus()),
    ;

    fn is_zero(self) -> (r: bool)
        ensures
            r == (self.value() == 0),
    ;

    /// Overwrites the element with zero, which is given so that nothing has to
    /// be computed.
    fn erase(&mut self, zero: Self)
        requires
            zero.value() == 0,
        ensures
            final(self).value() == 0,
        opens_invariants none
        no_unwind
    {
        *self = zero;
    }

    /// The inverse of the element; zero is taken to itself.
    fn invert(self) -> (r: Self)
        ensures
            r.value() == inv_mod(self.value(), Self::modulus()),
            self.value() != 0 ==> is_inverse(self.value(), r.value(), Self::modulus()),
    ;

    /// Replaces every element of `v` by its inverse.
    fn batch_invert(v: &mut Vec<Self>)
        ensures
            final(v)@.len() == old(v)@.len(),
            forall|i: int|
                0 <= i < old(v)@.len() ==> (#[trigger] final(v)@[i]).value() == inv_mod(
                    old(v)@[i].value(),
                    Self::modulus(),
                ),
    ;

    /// The residue of a little-endian number of 64 bytes.
    fn from_wide_bytes(bytes: &[u8; 64]) -> (r: Self)
        ensures
            r.value() == md(le_value(bytes@), Self::modulus()),
    ;

    /// The canonical encoding: 32 bytes, little-endian.
    fn to_bytes(self) -> (r: [u8; 32])
        ensures
            r@ == le_bytes(self.value(), 32),
    ;

    /// The element with a given canonical encoding.
    fn from_canonical_bytes(bytes: [u8; 32]) -> (r: Option<Self>)
        ensures
            r is Some <==> le_value(bytes@) < Self::modulus(),
            r matches Some(s) ==> s.value() == le_value(bytes@),
    ;
}

/// A cyclic group of prime order with a fixed generator.
///
/// The element `n * generator` has the index `n`. All that the proofs compute
/// with elements are linear combinations, and these are linear combinations
/// of the indices modulo the order.
pub trait Group: Sized {
    type Scalar: Field;

    type Point: Copy;

    type Encoding;

    /// The index of an element.
    spec fn index(p: Self::Point) -> int;

    /// The bytes of an encoding.
    spec fn bytes(e: Self::Encoding) -> Seq<u8>;

    /// The compressed encoding of the element with index `n`.
    spec fn encoding(n: int) -> Seq<u8>;

    /// The index of the element that some bytes encode, if they encode one.
    spec fn decoding(b: Seq<u8>) -> Option<int>;

    proof fn index_range(p: Self::Point)
        ensures
            0 <= Self::index(p) < Self::Scalar::modulus(),
            md(Self::index(p), Self::Scalar::modulus()) == Self::index(p),
    ;

    proof fn decoding_range(b: Seq<u8>)
        ensures
            Self::decoding(b) matches Some(n) ==> 0 <= n < Self::Scalar::modulus(),
    ;

    fn identity() -> (r: Self::Point)
        ensures
            Self::index(r) == 0,
    ;

    fn is_identity(p: Self::Point) -> (r: bool)
        ensures
            r == (Self::index(p) == 0),
    ;

    fn plus(p: Self::Point, q: Self::Point) -> (r: Self::Point)
        ensures
            Self::index(r) == add_mod(Self::index(p), Self::index(q), Self::Scalar::modulus()),
    ;

    fn times(p: Self::Point, s: Self::Scalar) -> (r: Self::Point)
        ensures
            Self::index(r) == mul_mod(Self::index(p), s.value(), Self::Scalar::modulus()),
    ;

    /// The linear combination of `points` with the coefficients `scalars`.
    fn msm(scalars: &[Self::Scalar], points: &[Self::Point]) -> (r: Self::Point)
        requires
            scalars@.len() == points@.len(),
        ensures
            Self::index(r) == md(
                dot(
                    values(scalars@),
                    Seq::new(points@.len(), |i: int| Self::index(points@[i])),
                ),
                Self::Scalar::modulus(),
            ),
    ;

    /// As `msm`; its running time may depend on the arguments.
    fn vartime_msm(scalars: &[Self::Scalar], points: &[Self::Point]) -> (r: Self::Point)
        requires
            scalars@.len() == points@.len(),
        ensures
            Self::index(r) == md(
                dot(
                    values(scalars@),
                    Seq::new(points@.len(), |i: int| Self::index(points@[i])),
                ),
                Self::Scalar::modulus(),
            ),
    ;

    fn encode(p: Self::Point) -> (r: Self::Encoding)
        ensures
            Self::bytes(r) == Self::encoding(Self::index(p)),
            Self::decoding(Self::bytes(r)) == Some(Self::index(p)),
            Self::bytes(r).len() <= 33,
    ;

    fn decode(e: &Self::Encoding) -> (r: Option<Self::Point>)
        ensures
            r is Some <==> Self::decoding(Self::bytes(*e)) is Some,
            r matches Some(p) ==> Self::decoding(Self::bytes(*e)) == Some(Self::index(p)),
    ;

    fn as_bytes(e: &Self::Encoding) -> (r: &[u8])
        ensures
            r@ == Self::bytes(*e),
    ;

    fn copy_encoding(e: &Self::Encoding) -> (r: Self::Encoding)
        ensures
            Self::bytes(r) == Self::bytes(*e),
    ;
}

/// `e` is the compressed encoding of the element with index `n`, of no more
/// than 33 bytes, and decodes to it.
pub open spec fn encodes<G: Group>(e: G::Encoding, n: int) -> bool {
    &&& G::bytes(e) == G::encoding(n)
    &&& G::decoding(G::bytes(e)) == Some(n)
    &&& G::bytes(e).len() <= 33
}

/// The residues of a sequence of scalars.
pub open spec fn values<F: Field>(s: Seq<F>) -> Seq<int> {
    Seq::new(s.len(), |i: int| s[i].value())
}

/// The indices of a sequence of group elements.
pub open spec fn indices<G: Group>(s: Seq<G::Point>) -> Seq<int> {
    Seq::new(s.len(), |i: int| G::index(s[i]))
}

} // verus!
