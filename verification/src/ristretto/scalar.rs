//! The scalars of Ristretto255.

use vstd::arithmetic::power::pow;
use vstd::prelude::*;
use crate::bytes::{le_bytes, le_value, lemma_le_bytes_of_value, lemma_le_value_range, lemma_pow_32};
use crate::group::Field;
use crate::modular::{
    add_mod, inv_mod, is_inverse, lemma_inverse_of_zero, lemma_inverse_unique, lemma_md_range,
    lemma_md_small, lemma_mod_range, md, mul_mod, sub_mod,
};

verus! {

/// The order of the group: `2^252 + 27742317777372353535851937790883648493`.
#[verifier::opaque]
pub open spec fn order() -> int {
    0x1000000000000000000000000000000014def9dea2f79cd65812631a5cf5d3edint
}

/// The order has no more than 32 bytes.
pub proof fn lemma_order()
    ensures
        1 < order() < pow(256, 32),
{
    reveal(order);
    lemma_pow_32();
}

/// A residue modulo the order of the group, by its canonical encoding.
#[derive(Copy, Clone, Debug, PartialEq, Eq)]
pub struct Scalar {
    pub(crate) bytes: [u8; 32],
}

/// A number is a multiple of the order.
pub open spec fn is_multiple(n: int) -> bool {
    md(n, order()) == 0
}

/// `Scalar::from(u64)` of curve25519-dalek: the canonical encoding of the
/// number.
#[verifier::external_body]
fn scalar_from_u64(n: u64) -> (r: [u8; 32])
    ensures
        le_value(r@) == md(n as int, order()),
{
    curve25519_dalek::scalar::Scalar::from(n).to_bytes()
}

/// The sum of two scalars of curve25519-dalek, encoded canonically.
#[verifier::external_body]
fn scalar_add(a: [u8; 32], b: [u8; 32]) -> (r: [u8; 32])
    ensures
        le_value(r@) == add_mod(le_value(a@), le_value(b@), order()),
{
    let a = curve25519_dalek::scalar::Scalar::from_bytes_mod_order(a);
    let b = curve25519_dalek::scalar::Scalar::from_bytes_mod_order(b);
    (a + b).to_bytes()
}

/// The difference of two scalars of curve25519-dalek, encoded canonically.
#[verifier::external_body]
fn scalar_sub(a: [u8; 32], b: [u8; 32]) -> (r: [u8; 32])
    ensures
        le_value(r@) == sub_mod(le_value(a@), le_value(b@), order()),
{
    let a = curve25519_dalek::scalar::Scalar::from_bytes_mod_order(a);
    let b = curve25519_dalek::scalar::Scalar::from_bytes_mod_order(b);
    (a - b).to_bytes()
}

/// `Zeroize::zeroize` of zeroize overwrites every byte with zero. That the
/// compiler does not leave the write out is not stated.
#[verifier::external_body]
fn zeroize_bytes(b: &mut [u8; 32])
    ensures
        forall|i: int| 0 <= i < 32 ==> #[trigger] final(b)@[i] == 0,
    opens_invariants none
    no_unwind
{
    zeroize::Zeroize::zeroize(b);
}

/// The product of two scalars of curve25519-dalek, encoded canonically.
#[verifier::external_body]
fn scalar_mul(a: [u8; 32], b: [u8; 32]) -> (r: [u8; 32])
    ensures
        le_value(r@) == mul_mod(le_value(a@), le_value(b@), order()),
{
    let a = curve25519_dalek::scalar::Scalar::from_bytes_mod_order(a);
    let b = curve25519_dalek::scalar::Scalar::from_bytes_mod_order(b);
    (a * b).to_bytes()
}

/// The negative of a scalar of curve25519-dalek, encoded canonically.
#[verifier::external_body]
fn scalar_neg(a: [u8; 32]) -> (r: [u8; 32])
    ensures
        le_value(r@) == sub_mod(0, le_value(a@), order()),
{
    (-curve25519_dalek::scalar::Scalar::from_bytes_mod_order(a)).to_bytes()
}

/// `Scalar::invert` of curve25519-dalek: the inverse, encoded canonically. The
/// function raises the scalar to a fixed power, so it takes zero to zero.
#[verifier::external_body]
fn scalar_invert(a: [u8; 32]) -> (r: [u8; 32])
    ensures
        0 <= le_value(r@) < order(),
        !is_multiple(le_value(a@)) ==> is_inverse(le_value(a@), le_value(r@), order()),
        is_multiple(le_value(a@)) ==> le_value(r@) == 0,
{
    curve25519_dalek::scalar::Scalar::from_bytes_mod_order(a).invert().to_bytes()
}

/// `Scalar::batch_invert` of curve25519-dalek, for scalars that are not zero:
/// each is replaced by its inverse, encoded canonically.
#[verifier::external_body]
fn scalar_batch_invert(a: &[[u8; 32]]) -> (r: Vec<[u8; 32]>)
    requires
        forall|i: int| 0 <= i < a@.len() ==> !is_multiple(le_value((#[trigger] a@[i])@)),
    ensures
        r@.len() == a@.len(),
        forall|i: int|
            0 <= i < a@.len() ==> 0 <= le_value((#[trigger] r@[i])@) < order() && is_inverse(
                le_value(a@[i]@),
                le_value(r@[i]@),
                order(),
            ),
{
    let mut scalars: Vec<curve25519_dalek::scalar::Scalar> = a.iter().map(
        |b| curve25519_dalek::scalar::Scalar::from_bytes_mod_order(*b),
    ).collect();
    curve25519_dalek::scalar::Scalar::batch_invert(&mut scalars);
    scalars.iter().map(|s| s.to_bytes()).collect()
}

/// `Scalar::from_bytes_mod_order_wide` of curve25519-dalek: the residue of a
/// number of 64 bytes, encoded canonically.
#[verifier::external_body]
fn scalar_from_wide(bytes: &[u8; 64]) -> (r: [u8; 32])
    ensures
        le_value(r@) == md(le_value(bytes@), order()),
{
    curve25519_dalek::scalar::Scalar::from_bytes_mod_order_wide(bytes).to_bytes()
}

/// `Scalar::from_canonical_bytes` of curve25519-dalek accepts exactly the
/// encodings of numbers below the order, and keeps them.
#[verifier::external_body]
fn scalar_from_canonical(bytes: [u8; 32]) -> (r: Option<[u8; 32]>)
    ensures
        r is Some <==> le_value(bytes@) < order(),
        r matches Some(b) ==> b == bytes,
{
    Option::<curve25519_dalek::scalar::Scalar>::from(
        curve25519_dalek::scalar::Scalar::from_canonical_bytes(bytes),
    ).map(|s| s.to_bytes())
}

impl Scalar {
    #[verifier::type_invariant]
    spec fn canonical(self) -> bool {
        0 <= le_value(self.bytes@) < order()
    }

    /// The scalar with a canonical encoding.
    pub(crate) fn of(bytes: [u8; 32]) -> (r: Self)
        requires
            0 <= le_value(bytes@) < order(),
        ensures
            r.value() == le_value(bytes@),
    {
        proof {
            lemma_order();
            lemma_md_small(le_value(bytes@), order());
        }
        Scalar { bytes }
    }

    /// The canonical encoding stands for the value.
    fn canonical_bytes(&self) -> (r: [u8; 32])
        ensures
            le_value(r@) == self.value(),
            0 <= self.value() < order(),
    {
        proof {
            use_type_invariant(self);
            lemma_order();
            lemma_md_small(le_value(self.bytes@), order());
        }
        self.bytes
    }

    /// Views the canonical encoding.
    pub fn as_bytes(&self) -> (r: &[u8; 32])
        ensures
            r@ == le_bytes(self.value(), 32),
    {
        proof {
            use_type_invariant(self);
            lemma_order();
            lemma_md_small(le_value(self.bytes@), order());
            lemma_le_bytes_of_value(self.bytes@);
        }
        &self.bytes
    }
}

/// A number is zero exactly if all its digits are.
proof fn lemma_zero_digits(b: Seq<u8>)
    ensures
        le_value(b) == 0 <==> forall|i: int| 0 <= i < b.len() ==> b[i] == 0,
    decreases b.len(),
{
    if b.len() > 0 {
        let r = b.drop_first();
        lemma_zero_digits(r);
        lemma_le_value_range(r);
        if le_value(b) == 0 {
            assert forall|i: int| 0 <= i < b.len() implies b[i] == 0 by {
                if i > 0 {
                    assert(r[i - 1] == 0);
                }
            }
        }
        if forall|i: int| 0 <= i < b.len() ==> b[i] == 0 {
            assert forall|i: int| 0 <= i < r.len() implies r[i] == 0 by {
                assert(b[i + 1] == 0);
            }
        }
    }
}

impl Field for Scalar {
    open spec fn modulus() -> int {
        order()
    }

    closed spec fn value(self) -> int {
        md(le_value(self.bytes@), order())
    }

    proof fn modulus_range() {
        lemma_order();
    }

    proof fn small_units() {
        reveal(order);
        reveal(mul_mod);
        let q = order();
        assert(2 * ((q + 1) / 2) == q + 1);
        assert(3 * ((2 * q + 1) / 3) == 2 * q + 1);
        vstd::arithmetic::div_mod::lemma_fundamental_div_mod_converse(q + 1, q, 1, 1);
        vstd::arithmetic::div_mod::lemma_fundamental_div_mod_converse(2 * q + 1, q, 2, 1);
    }

    proof fn value_range(self) {
        lemma_order();
        lemma_md_range(le_value(self.bytes@), order());
    }

    fn zero() -> (r: Self) {
        Self::from_u64_below(0)
    }

    fn one() -> (r: Self) {
        Self::from_u64_below(1)
    }

    fn from_u64(n: u64) -> (r: Self) {
        proof {
            lemma_order();
            lemma_md_range(n as int, order());
        }
        Scalar::of(scalar_from_u64(n))
    }

    fn plus(self, other: Self) -> (r: Self) {
        let a = self.canonical_bytes();
        let b = other.canonical_bytes();
        proof {
            lemma_order();
            lemma_mod_range(le_value(a@), le_value(b@), order());
        }
        Scalar::of(scalar_add(a, b))
    }

    fn minus(self, other: Self) -> (r: Self) {
        let a = self.canonical_bytes();
        let b = other.canonical_bytes();
        proof {
            lemma_order();
            lemma_mod_range(le_value(a@), le_value(b@), order());
        }
        Scalar::of(scalar_sub(a, b))
    }

    fn times(self, other: Self) -> (r: Self) {
        let a = self.canonical_bytes();
        let b = other.canonical_bytes();
        proof {
            lemma_order();
            lemma_mod_range(le_value(a@), le_value(b@), order());
        }
        Scalar::of(scalar_mul(a, b))
    }

    fn negate(self) -> (r: Self) {
        let a = self.canonical_bytes();
        proof {
            lemma_order();
            lemma_mod_range(0, le_value(a@), order());
        }
        Scalar::of(scalar_neg(a))
    }

    fn erase(&mut self, zero: Self) {
        proof {
            lemma_order();
            lemma_md_small(0, order());
            assert forall|b: Seq<u8>| (forall|i: int| 0 <= i < b.len() ==> b[i] == 0) implies #[trigger] le_value(b)
                == 0 by {
                lemma_zero_digits(b);
            }
        }
        zeroize_bytes(&mut self.bytes);
    }

    fn is_zero(self) -> (r: bool) {
        let a = self.canonical_bytes();
        proof {
            lemma_zero_digits(a@);
        }
        let mut i: usize = 0;
        while i < 32
            invariant
                i <= 32,
                le_value(a@) == self.value(),
                le_value(a@) == 0 <==> forall|j: int| 0 <= j < 32 ==> a@[j] == 0,
                forall|j: int| 0 <= j < i ==> a@[j] == 0,
            decreases 32 - i,
        {
            if a[i] != 0 {
                return false;
            }
            i += 1;
        }
        true
    }

    fn invert(self) -> (r: Self) {
        let a = self.canonical_bytes();
        let b = scalar_invert(a);
        proof {
            lemma_order();
            lemma_md_small(le_value(a@), order());
            if le_value(a@) == 0 {
                lemma_inverse_of_zero(order());
            } else {
                lemma_inverse_unique(le_value(a@), le_value(b@), order());
            }
        }
        Scalar::of(b)
    }

    fn batch_invert(v: &mut Vec<Self>) {
        let n: usize = v.len();
        let mut all: Vec<[u8; 32]> = Vec::new();
        let mut nonzero: bool = true;
        let mut i: usize = 0;
        while i < n
            invariant
                i <= n == v@.len(),
                v@ == old(v)@,
                all@.len() == i,
                forall|j: int|
                    0 <= j < i ==> le_value((#[trigger] all@[j])@) == v@[j].value() && 0 <= v@[j].value()
                        < order(),
                nonzero ==> forall|j: int| 0 <= j < i ==> (#[trigger] v@[j]).value() != 0,
            decreases n - i,
        {
            let s = v[i];
            if s.is_zero() {
                nonzero = false;
            }
            let b = s.canonical_bytes();
            all.push(b);
            assert(all@[i as int] == b);
            i += 1;
        }
        if nonzero {
            proof {
                lemma_order();
                assert forall|j: int| 0 <= j < all@.len() implies !is_multiple(
                    le_value((#[trigger] all@[j])@),
                ) by {
                    assert(v@[j].value() != 0);
                    lemma_md_small(le_value(all@[j]@), order());
                }
            }
            let inv = scalar_batch_invert(all.as_slice());
            let mut j: usize = 0;
            while j < n
                invariant
                    j <= n == v@.len(),
                    n == old(v)@.len(),
                    n == all@.len(),
                    n == inv@.len(),
                    forall|t: int|
                        0 <= t < n ==> le_value((#[trigger] all@[t])@) == old(v)@[t].value(),
                    forall|t: int|
                        0 <= t < n ==> 0 <= le_value((#[trigger] inv@[t])@) < order() && is_inverse(
                            le_value(all@[t]@),
                            le_value(inv@[t]@),
                            order(),
                        ),
                    forall|t: int|
                        0 <= t < j ==> (#[trigger] v@[t]).value() == inv_mod(old(v)@[t].value(), order()),
                decreases n - j,
            {
                let b = inv[j];
                proof {
                    lemma_order();
                    assert(is_inverse(le_value(all@[j as int]@), le_value(inv@[j as int]@), order()));
                    lemma_inverse_unique(le_value(all@[j as int]@), le_value(b@), order());
                }
                v.set(j, Scalar::of(b));
                j += 1;
            }
        } else {
            let mut j: usize = 0;
            while j < n
                invariant
                    j <= n == v@.len(),
                    n == old(v)@.len(),
                    forall|t: int| j <= t < n ==> (#[trigger] v@[t]) == old(v)@[t],
                    forall|t: int|
                        0 <= t < j ==> (#[trigger] v@[t]).value() == inv_mod(old(v)@[t].value(), order()),
                decreases n - j,
            {
                let s = v[j];
                v.set(j, s.invert());
                j += 1;
            }
        }
    }

    fn from_wide_bytes(bytes: &[u8; 64]) -> (r: Self) {
        proof {
            lemma_order();
            lemma_md_range(le_value(bytes@), order());
        }
        Scalar::of(scalar_from_wide(bytes))
    }

    fn to_bytes(self) -> (r: [u8; 32]) {
        let a = self.canonical_bytes();
        proof {
            lemma_le_bytes_of_value(a@);
        }
        a
    }

    fn from_canonical_bytes(bytes: [u8; 32]) -> (r: Option<Self>) {
        match scalar_from_canonical(bytes) {
            Some(b) => {
                proof {
                    lemma_le_value_range(b@);
                }
                Some(Scalar::of(b))
            },
            None => None,
        }
    }
}

impl Scalar {
    /// A small number as a scalar.
    fn from_u64_below(n: u64) -> (r: Self)
        requires
            n < 2,
        ensures
            r.value() == n,
    {
        proof {
            lemma_order();
            lemma_md_small(n as int, order());
        }
        Scalar::of(scalar_from_u64(n))
    }
}

/// The order of the group is `2^252 + 27742317777372353535851937790883648493`.
pub proof fn law_order()
    ensures
        order() == 0x1000000000000000000000000000000000000000000000000000000000000000int
            + 27742317777372353535851937790883648493int,
{
    reveal(order);
}

} // verus!
