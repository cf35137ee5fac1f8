//! The scalar field and the base field of P-256.

use vstd::arithmetic::power::pow;
use vstd::prelude::*;
use crate::bytes::{le_bytes, le_value, lemma_pow_32};
use crate::group::Field;
use crate::modular::{
    add_mod, inv_mod, is_inverse, lemma_inverse_of_zero, lemma_inverse_unique, lemma_md_range,
    lemma_md_small, lemma_mod_range, md, mul_mod, sub_mod,
};

verus! {

/// The number of points of the curve.
#[verifier::opaque]
pub open spec fn order() -> int {
    115792089210356248762697446949407573529996955224135760342422259061068512044369int
}

/// The number of elements of the field that the coordinates lie in.
#[verifier::opaque]
pub open spec fn prime() -> int {
    115792089210356248762697446949407573530086143415290314195533631308867097853951int
}

/// The order has no more than 32 bytes.
pub proof fn lemma_order()
    ensures
        3 < order() < pow(256, 32),
{
    reveal(order);
    lemma_pow_32();
}

/// The prime has no more than 32 bytes.
pub proof fn lemma_prime()
    ensures
        3 < prime() < pow(256, 32),
{
    reveal(prime);
    lemma_pow_32();
}

/// The number whose 64-bit digits, least significant first, are `l`.
pub open spec fn limb_value(l: Seq<u64>) -> int {
    l[0] + 0x1_0000_0000_0000_0000 * (l[1] + 0x1_0000_0000_0000_0000 * (l[2] + 0x1_0000_0000_0000_0000
        * l[3]))
}

// ---------------------------------------------------------------------------
// The scalar field
// ---------------------------------------------------------------------------

/// `Fr::from(u64)` of ark-secp256r1: the number as a residue.
#[verifier::external_body]
fn fr_from_u64(n: u64) -> (r: [u64; 4])
    ensures
        limb_value(r@) == md(n as int, order()),
{
    ark_ff::PrimeField::into_bigint(ark_secp256r1::Fr::from(n)).0
}

/// The sum of two elements of `ark_secp256r1::Fr`.
#[verifier::external_body]
fn fr_add(a: [u64; 4], b: [u64; 4]) -> (r: [u64; 4])
    requires
        limb_value(a@) < order(),
        limb_value(b@) < order(),
    ensures
        limb_value(r@) == add_mod(limb_value(a@), limb_value(b@), order()),
{
    let a = <ark_secp256r1::Fr as ark_ff::PrimeField>::from_bigint(ark_ff::BigInt(a)).unwrap();
    let b = <ark_secp256r1::Fr as ark_ff::PrimeField>::from_bigint(ark_ff::BigInt(b)).unwrap();
    ark_ff::PrimeField::into_bigint(a + b).0
}

/// The difference of two elements of `ark_secp256r1::Fr`.
#[verifier::external_body]
fn fr_sub(a: [u64; 4], b: [u64; 4]) -> (r: [u64; 4])
    requires
        limb_value(a@) < order(),
        limb_value(b@) < order(),
    ensures
        limb_value(r@) == sub_mod(limb_value(a@), limb_value(b@), order()),
{
    let a = <ark_secp256r1::Fr as ark_ff::PrimeField>::from_bigint(ark_ff::BigInt(a)).unwrap();
    let b = <ark_secp256r1::Fr as ark_ff::PrimeField>::from_bigint(ark_ff::BigInt(b)).unwrap();
    ark_ff::PrimeField::into_bigint(a - b).0
}

/// The product of two elements of `ark_secp256r1::Fr`.
#[verifier::external_body]
fn fr_mul(a: [u64; 4], b: [u64; 4]) -> (r: [u64; 4])
    requires
        limb_value(a@) < order(),
        limb_value(b@) < order(),
    ensures
        limb_value(r@) == mul_mod(limb_value(a@), limb_value(b@), order()),
{
    let a = <ark_secp256r1::Fr as ark_ff::PrimeField>::from_bigint(ark_ff::BigInt(a)).unwrap();
    let b = <ark_secp256r1::Fr as ark_ff::PrimeField>::from_bigint(ark_ff::BigInt(b)).unwrap();
    ark_ff::PrimeField::into_bigint(a * b).0
}

/// The negative of an element of `ark_secp256r1::Fr`.
#[verifier::external_body]
fn fr_neg(a: [u64; 4]) -> (r: [u64; 4])
    requires
        limb_value(a@) < order(),
    ensures
        limb_value(r@) == sub_mod(0, limb_value(a@), order()),
{
    let a = <ark_secp256r1::Fr as ark_ff::PrimeField>::from_bigint(ark_ff::BigInt(a)).unwrap();
    ark_ff::PrimeField::into_bigint(-a).0
}

/// `Field::inverse` on `ark_secp256r1::Fr`: the inverse, and nothing for zero.
#[verifier::external_body]
fn fr_inverse(a: [u64; 4]) -> (r: Option<[u64; 4]>)
    requires
        limb_value(a@) < order(),
    ensures
        r is Some <==> limb_value(a@) != 0,
        r matches Some(w) ==> is_inverse(limb_value(a@), limb_value(w@), order()),
{
    let a = <ark_secp256r1::Fr as ark_ff::PrimeField>::from_bigint(ark_ff::BigInt(a)).unwrap();
    ark_ff::Field::inverse(&a).map(|w| ark_ff::PrimeField::into_bigint(w).0)
}

/// `ark_ff::batch_inversion` on `ark_secp256r1::Fr` replaces every element by
/// its inverse and passes over zeros.
#[verifier::external_body]
fn fr_batch_inversion(a: &[Fr]) -> (r: Vec<[u64; 4]>)
    ensures
        r@.len() == a@.len(),
        forall|i: int|
            0 <= i < a@.len() ==> {
                let n = (#[trigger] a@[i]).value();
                let w = limb_value(r@[i]@);
                if n == 0 {
                    w == 0
                } else {
                    is_inverse(n, w, order())
                }
            },
{
    let mut v: Vec<ark_secp256r1::Fr> = a.iter().map(
        |s| <ark_secp256r1::Fr as ark_ff::PrimeField>::from_bigint(ark_ff::BigInt(s.limbs)).unwrap(),
    ).collect();
    ark_ff::batch_inversion(&mut v);
    v.into_iter().map(|w| ark_ff::PrimeField::into_bigint(w).0).collect()
}

/// `PrimeField::from_le_bytes_mod_order` on `ark_secp256r1::Fr`: the residue of
/// a little-endian number.
#[verifier::external_body]
fn fr_from_le_bytes(bytes: &[u8]) -> (r: [u64; 4])
    ensures
        limb_value(r@) == md(le_value(bytes@), order()),
{
    let a = <ark_secp256r1::Fr as ark_ff::PrimeField>::from_le_bytes_mod_order(bytes);
    ark_ff::PrimeField::into_bigint(a).0
}

/// `CanonicalSerialize::serialize_compressed` on `ark_secp256r1::Fr`: the 32
/// digits of the number, least significant first.
#[verifier::external_body]
fn fr_serialize(a: [u64; 4]) -> (r: [u8; 32])
    requires
        limb_value(a@) < order(),
    ensures
        r@ == le_bytes(limb_value(a@), 32),
{
    let a = <ark_secp256r1::Fr as ark_ff::PrimeField>::from_bigint(ark_ff::BigInt(a)).unwrap();
    let mut buf = [0u8; 32];
    ark_serialize::CanonicalSerialize::serialize_compressed(&a, &mut buf[..]).unwrap();
    buf
}

/// The first 32 bytes stand for a number below the order.
pub open spec fn is_scalar(data: Seq<u8>) -> bool {
    data.len() >= 32 && le_value(data.take(32)) < order()
}

/// `CanonicalDeserialize::deserialize_compressed` on `ark_secp256r1::Fr` reads
/// the first 32 bytes, if they are there and stand for a number below the
/// order.
#[verifier::external_body]
fn fr_deserialize(data: &[u8]) -> (r: Option<[u64; 4]>)
    ensures
        r is Some <==> is_scalar(data@),
        r matches Some(a) ==> limb_value(a@) == le_value(data@.take(32)),
{
    <ark_secp256r1::Fr as ark_serialize::CanonicalDeserialize>::deserialize_compressed(data)
        .ok()
        .map(|a| ark_ff::PrimeField::into_bigint(a).0)
}

/// A residue modulo the number of points of the curve, by its 64-bit digits.
#[derive(Copy, Clone, Debug, PartialEq, Eq)]
pub struct Fr {
    pub(crate) limbs: [u64; 4],
}

impl Fr {
    #[verifier::type_invariant]
    spec fn canonical(self) -> bool {
        limb_value(self.limbs@) < order()
    }

    /// The scalar with given digits.
    pub(crate) fn of(limbs: [u64; 4]) -> (r: Self)
        requires
            limb_value(limbs@) < order(),
        ensures
            r.value() == limb_value(limbs@),
    {
        proof {
            lemma_order();
            lemma_md_small(limb_value(limbs@), order());
        }
        Fr { limbs }
    }

    /// The digits of the scalar.
    pub fn into_bigint(self) -> (r: [u64; 4])
        ensures
            limb_value(r@) == self.value(),
            self.value() < order(),
    {
        proof {
            use_type_invariant(&self);
            lemma_order();
            lemma_md_small(limb_value(self.limbs@), order());
        }
        self.limbs
    }

    /// Reads a scalar from the first 32 bytes of `data`.
    pub fn deserialize_compressed(data: &[u8]) -> (r: Option<Self>)
        ensures
            r is Some <==> is_scalar(data@),
            r matches Some(s) ==> s.value() == le_value(data@.take(32)),
    {
        match fr_deserialize(data) {
            Some(limbs) => Some(Fr::of(limbs)),
            None => None,
        }
    }
}

impl Field for Fr {
    open spec fn modulus() -> int {
        order()
    }

    closed spec fn value(self) -> int {
        md(limb_value(self.limbs@), order())
    }

    proof fn modulus_range() {
        lemma_order();
    }

    proof fn small_units() {
        reveal(order);
        reveal(mul_mod);
        let q = order();
        assert(2 * ((q + 1) / 2) == q + 1);
        assert(3 * ((2 * q + 1) / 3) == 2 * q + 1);
        vstd::arithmetic::div_mod::lemma_fundamental_div_mod_converse(q + 1, q, 1, 1);
        vstd::arithmetic::div_mod::lemma_fundamental_div_mod_converse(2 * q + 1, q, 2, 1);
    }

    proof fn value_range(self) {
        lemma_order();
        lemma_md_range(limb_value(self.limbs@), order());
    }

    fn zero() -> (r: Self) {
        Fr::of_small(0)
    }

    fn one() -> (r: Self) {
        Fr::of_small(1)
    }

    fn from_u64(n: u64) -> (r: Self) {
        proof {
            lemma_order();
            lemma_md_range(n as int, order());
        }
        Fr::of(fr_from_u64(n))
    }

    fn plus(self, other: Self) -> (r: Self) {
        let a = self.into_bigint();
        let b = other.into_bigint();
        proof {
            lemma_order();
            lemma_mod_range(limb_value(a@), limb_value(b@), order());
        }
        Fr::of(fr_add(a, b))
    }

    fn minus(self, other: Self) -> (r: Self) {
        let a = self.into_bigint();
        let b = other.into_bigint();
        proof {
            lemma_order();
            lemma_mod_range(limb_value(a@), limb_value(b@), order());
        }
        Fr::of(fr_sub(a, b))
    }

    fn times(self, other: Self) -> (r: Self) {
        let a = self.into_bigint();
        let b = other.into_bigint();
        proof {
            lemma_order();
            lemma_mod_range(limb_value(a@), limb_value(b@), order());
        }
        Fr::of(fr_mul(a, b))
    }

    fn negate(self) -> (r: Self) {
        let a = self.into_bigint();
        proof {
            lemma_order();
            lemma_mod_range(0, limb_value(a@), order());
        }
        Fr::of(fr_neg(a))
    }

    fn is_zero(self) -> (r: bool) {
        let a = self.into_bigint();
        a[0] == 0 && a[1] == 0 && a[2] == 0 && a[3] == 0
    }

    fn invert(self) -> (r: Self) {
        let a = self.into_bigint();
        proof {
            lemma_order();
            lemma_inverse_of_zero(order());
        }
        match fr_inverse(a) {
            Some(w) => {
                proof {
                    lemma_inverse_unique(limb_value(a@), limb_value(w@), order());
                }
                Fr::of(w)
            },
            None => Fr::of_small(0),
        }
    }

    fn batch_invert(v: &mut Vec<Self>) {
        let n: usize = v.len();
        let inv = fr_batch_inversion(v.as_slice());
        let mut j: usize = 0;
        while j < n
            invariant
                j <= n == v@.len(),
                n == old(v)@.len(),
                n == inv@.len(),
                forall|i: int|
                    0 <= i < n ==> {
                        let a = (#[trigger] old(v)@[i]).value();
                        let w = limb_value(inv@[i]@);
                        if a == 0 {
                            w == 0
                        } else {
                            is_inverse(a, w, order())
                        }
                    },
                forall|t: int|
                    0 <= t < j ==> (#[trigger] v@[t]).value() == inv_mod(old(v)@[t].value(), order()),
            decreases n - j,
        {
            let w = inv[j];
            proof {
                lemma_order();
                let a = old(v)@[j as int].value();
                if a == 0 {
                    lemma_inverse_of_zero(order());
                } else {
                    lemma_inverse_unique(a, limb_value(w@), order());
                }
            }
            v.set(j, Fr::of(w));
            j += 1;
        }
    }

    fn from_wide_bytes(bytes: &[u8; 64]) -> (r: Self) {
        proof {
            lemma_order();
            lemma_md_range(le_value(bytes@), order());
        }
        Fr::of(fr_from_le_bytes(bytes.as_slice()))
    }

    fn to_bytes(self) -> (r: [u8; 32]) {
        fr_serialize(self.into_bigint())
    }

    fn from_canonical_bytes(bytes: [u8; 32]) -> (r: Option<Self>) {
        assert(bytes@.take(32) =~= bytes@);
        Fr::deserialize_compressed(bytes.as_slice())
    }
}

impl Fr {
    /// A small number as a scalar.
    fn of_small(n: u64) -> (r: Self)
        requires
            n < 2,
        ensures
            r.value() == n,
    {
        proof {
            lemma_order();
            lemma_md_small(n as int, order());
        }
        Fr::of(fr_from_u64(n))
    }
}

// ---------------------------------------------------------------------------
// The base field
// ---------------------------------------------------------------------------

/// `PrimeField::from_le_bytes_mod_order` on `ark_secp256r1::Fq`: the residue of
/// a little-endian number.
#[verifier::external_body]
pub(crate) fn fq_from_le_bytes(bytes: &[u8]) -> (r: [u64; 4])
    ensures
        limb_value(r@) == md(le_value(bytes@), prime()),
{
    let a = <ark_secp256r1::Fq as ark_ff::PrimeField>::from_le_bytes_mod_order(bytes);
    ark_ff::PrimeField::into_bigint(a).0
}

/// The sum of two elements of `ark_secp256r1::Fq`.
#[verifier::external_body]
pub(crate) fn fq_add(a: [u64; 4], b: [u64; 4]) -> (r: [u64; 4])
    requires
        limb_value(a@) < prime(),
        limb_value(b@) < prime(),
    ensures
        limb_value(r@) == add_mod(limb_value(a@), limb_value(b@), prime()),
{
    let a = <ark_secp256r1::Fq as ark_ff::PrimeField>::from_bigint(ark_ff::BigInt(a)).unwrap();
    let b = <ark_secp256r1::Fq as ark_ff::PrimeField>::from_bigint(ark_ff::BigInt(b)).unwrap();
    ark_ff::PrimeField::into_bigint(a + b).0
}

/// The product of two elements of `ark_secp256r1::Fq`.
#[verifier::external_body]
pub(crate) fn fq_mul(a: [u64; 4], b: [u64; 4]) -> (r: [u64; 4])
    requires
        limb_value(a@) < prime(),
        limb_value(b@) < prime(),
    ensures
        limb_value(r@) == mul_mod(limb_value(a@), limb_value(b@), prime()),
{
    let a = <ark_secp256r1::Fq as ark_ff::PrimeField>::from_bigint(ark_ff::BigInt(a)).unwrap();
    let b = <ark_secp256r1::Fq as ark_ff::PrimeField>::from_bigint(ark_ff::BigInt(b)).unwrap();
    ark_ff::PrimeField::into_bigint(a * b).0
}

/// The candidate for a square root, where the prime is one less than a
/// multiple of four.
pub open spec fn root_candidate(a: int) -> int {
    md(pow(a, ((prime() + 1) / 4) as nat), prime())
}

/// `Field::sqrt` on `ark_secp256r1::Fq` raises the element to a fixed power,
/// and gives the result if its square is the element.
#[verifier::external_body]
pub(crate) fn fq_sqrt(a: [u64; 4]) -> (r: Option<[u64; 4]>)
    requires
        limb_value(a@) < prime(),
    ensures
        r is Some <==> mul_mod(root_candidate(limb_value(a@)), root_candidate(limb_value(a@)), prime())
            == limb_value(a@),
        r matches Some(s) ==> limb_value(s@) == root_candidate(limb_value(a@)),
{
    let a = <ark_secp256r1::Fq as ark_ff::PrimeField>::from_bigint(ark_ff::BigInt(a)).unwrap();
    ark_ff::Field::sqrt(&a).map(|s| ark_ff::PrimeField::into_bigint(s).0)
}

/// The prime is `2^256 - 2^224 + 2^192 + 2^96 - 1`, and the order of the group
/// is less by `89188191154553853111372247798585809582`.
pub proof fn law_moduli()
    ensures
        prime() == 0x1_0000_0000_0000_0000_0000_0000_0000_0000_0000_0000_0000_0000_0000_0000_0000_0000int
            - 0x1_0000_0000_0000_0000_0000_0000_0000_0000_0000_0000_0000_0000_0000_0000int
            + 0x1_0000_0000_0000_0000_0000_0000_0000_0000_0000_0000_0000_0000int
            + 0x1_0000_0000_0000_0000_0000_0000int - 1,
        order() == prime() - 89188191154553853111372247798585809582int,
{
    reveal(prime);
    reveal(order);
}

} // verus!
