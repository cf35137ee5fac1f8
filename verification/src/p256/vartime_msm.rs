//! Variable-time multiscalar multiplication.
//!
//! Fewer points than a threshold are multiplied with Straus' method on signed
//! digits, more with the method of arkworks. The result is the same.

use vstd::arithmetic::power::{lemma_pow0, pow};
use vstd::prelude::*;
use crate::bytes::lemma_pow_32;
use crate::group::{Field, values};
use crate::modular::{group_mod, lemma_eqm_add, lemma_md_range, lemma_md_small, lemma_pow_next, md, mul_mod};
use crate::p256::curve::{
    Affine, Projective, affine_index, affine_indices, lemma_affine_index, lemma_point_index, point_index,
    point_indices,
};
use crate::p256::field::{Fr, lemma_order, order};
use crate::sums::{dot, lemma_sum_add, lemma_sum_ext, lemma_sum_scale, lemma_sum_split, lemma_sum_zero, sum};

verus! {

broadcast use group_mod;

/// The number of points from which on the method of arkworks is used.
pub const STRAUS_THRESHOLD: usize = 190;

// ---------------------------------------------------------------------------
// Signed digits
// ---------------------------------------------------------------------------

/// The number whose signed binary digits, least significant first, are the
/// first `n` of `d`.
pub open spec fn low_value(d: Seq<i8>, n: int) -> int {
    sum(n, |t: int| d[t] * pow(2, t as nat))
}

/// The number whose signed binary digits, least significant first, are `d`.
pub open spec fn naf_value(d: Seq<i8>) -> int {
    low_value(d, d.len() as int)
}

/// The digits are zero or odd, no larger than 15, and among any five in a row
/// at most one is not zero.
pub open spec fn is_naf(d: Seq<i8>) -> bool {
    &&& forall|t: int| 0 <= t < d.len() ==> #[trigger] is_digit(d[t])
    &&& forall|s: int, t: int|
        0 <= s < t < d.len() && d[s] != 0 && d[t] != 0 ==> t - s >= 5
}

/// A digit is zero or odd, and no larger than 15.
pub open spec fn is_digit(v: i8) -> bool {
    v == 0 || (-15 <= v <= 15 && v % 2 == 1)
}

/// Every digit that is not zero is odd and less than 16 in magnitude, and is
/// followed by four zeros.
pub proof fn law_naf_digits(d: Seq<i8>, t: int)
    requires
        is_naf(d),
        0 <= t < d.len(),
        d[t] != 0,
    ensures
        d[t] % 2 == 1,
        -16 < d[t] < 16,
        forall|s: int| t < s < t + 5 && s < d.len() ==> #[trigger] d[s] == 0,
        forall|s: int| t - 5 < s < t && s >= 0 ==> #[trigger] d[s] == 0,
{
    assert(is_digit(d[t]));
}

/// The first digit counts once, and those behind it twice as much as on their
/// own.
pub proof fn law_naf_value(d: Seq<i8>)
    ensures
        d.len() == 0 ==> naf_value(d) == 0,
        d.len() > 0 ==> naf_value(d) == d[0] + 2 * naf_value(d.skip(1)),
{
    if d.len() > 0 {
        let f = |t: int| d[t] * pow(2, t as nat);
        let e = d.skip(1);
        let g = |t: int| e[t] * pow(2, t as nat);
        let n = d.len() - 1;
        lemma_sum_split(1, n, f);
        assert(sum(1, f) == sum(0, f) + f(0));
        lemma_pow0(2);
        assert forall|t: int| 0 <= t < n implies #[trigger] f(1 + t) == 2 * g(t) by {
            lemma_pow_next(2, t);
            let (x, p) = (e[t] as int, pow(2, t as nat));
            assert(x * (2 * p) == 2 * (x * p)) by (nonlinear_arith);
        }
        lemma_sum_ext(n, |t: int| f(1 + t), |t: int| 2 * g(t));
        lemma_sum_scale(n, 2, g);
    }
}

/// The number with five 64-bit digits, least significant first.
pub(crate) open spec fn value5(x: Seq<u64>) -> int {
    x[0] + 0x1_0000_0000_0000_0000int * x[1] + 0x1_0000_0000_0000_0000_0000_0000_0000_0000int * x[2]
        + 0x1_0000_0000_0000_0000_0000_0000_0000_0000_0000_0000_0000_0000int * x[3]
        + 0x1_0000_0000_0000_0000_0000_0000_0000_0000_0000_0000_0000_0000_0000_0000_0000_0000int * x[4]
}

pub(crate) proof fn lemma_bits(a: u64, b: u64)
    ensures
        a & 1 == a % 2,
        a & 31 == a % 32,
        ((a >> 1) | (b << 63)) == a / 2 + 0x8000_0000_0000_0000 * (b % 2),
        a >> 1 == a / 2,
{
    assert(a & 1 == a % 2) by (bit_vector);
    assert(a & 31 == a % 32) by (bit_vector);
    assert(((a >> 1) | (b << 63)) == a / 2 + 0x8000_0000_0000_0000u64 * (b % 2)) by (bit_vector);
    assert(a >> 1 == a / 2) by (bit_vector);
}

/// Halves a number.
pub(crate) fn halve(x: &mut [u64; 5])
    requires
        value5(old(x)@) % 2 == 0,
    ensures
        2 * value5(final(x)@) == value5(old(x)@),
{
    proof {
        lemma_bits(x[0], x[1]);
        lemma_bits(x[1], x[2]);
        lemma_bits(x[2], x[3]);
        lemma_bits(x[3], x[4]);
        lemma_bits(x[4], 0);
    }
    let y0: u64 = (x[0] >> 1) | (x[1] << 63);
    let y1: u64 = (x[1] >> 1) | (x[2] << 63);
    let y2: u64 = (x[2] >> 1) | (x[3] << 63);
    let y3: u64 = (x[3] >> 1) | (x[4] << 63);
    let y4: u64 = x[4] >> 1;
    *x = [y0, y1, y2, y3, y4];
}

/// Adds a small number.
fn add_small(x: &mut [u64; 5], addend: u64)
    requires
        value5(old(x)@) <= 0x1_0000_0000_0000_0000_0000_0000_0000_0000_0000_0000_0000_0000_0000_0000_0000_0000int,
        addend < 32,
    ensures
        value5(final(x)@) == value5(old(x)@) + addend,
{
    let v0: u64 = x[0].wrapping_add(addend);
    let c0: u64 = if v0 < addend {
        1
    } else {
        0
    };
    let v1: u64 = x[1].wrapping_add(c0);
    let c1: u64 = if v1 < c0 {
        1
    } else {
        0
    };
    let v2: u64 = x[2].wrapping_add(c1);
    let c2: u64 = if v2 < c1 {
        1
    } else {
        0
    };
    let v3: u64 = x[3].wrapping_add(c2);
    let c3: u64 = if v3 < c2 {
        1
    } else {
        0
    };
    let v4: u64 = x[4] + c3;
    *x = [v0, v1, v2, v3, v4];
}

/// What is left of a number below `2^256` after `i` digits.
spec fn rest_bound(i: int) -> int {
    if i <= 256 {
        pow(2, (256 - i) as nat)
    } else {
        0
    }
}

/// The small powers of two.
proof fn lemma_pow2_small()
    ensures
        pow(2, 0) == 1,
        pow(2, 1) == 2,
        pow(2, 2) == 4,
        pow(2, 3) == 8,
        pow(2, 4) == 16,
        pow(2, 5) == 32,
{
    lemma_pow0(2);
    lemma_pow_next(2, 0);
    lemma_pow_next(2, 1);
    lemma_pow_next(2, 2);
    lemma_pow_next(2, 3);
    lemma_pow_next(2, 4);
}

/// `2^256`.
pub(crate) proof fn lemma_pow2_256()
    ensures
        pow(2, 256)
            == 0x1_0000_0000_0000_0000_0000_0000_0000_0000_0000_0000_0000_0000_0000_0000_0000_0000int,
{
    lemma_pow2_small();
    lemma_pow_next(2, 5);
    lemma_pow_next(2, 6);
    lemma_pow_next(2, 7);
    vstd::arithmetic::power::lemma_pow_multiplies(2, 8, 32);
    lemma_pow_32();
}

/// What is left after one more digit.
proof fn lemma_rest(x: int, i: int)
    requires
        0 <= i < 257,
        0 <= x <= rest_bound(i),
    ensures
        x % 2 == 0 ==> x / 2 <= rest_bound(i + 1),
        x % 2 == 1 && x % 32 < 16 ==> (x - x % 32) / 2 <= rest_bound(i + 1),
        x % 2 == 1 && x % 32 >= 16 ==> (x + (32 - x % 32)) / 2 <= rest_bound(i + 1),
{
    let e = 256 - i;
    lemma_pow2_small();
    if e >= 5 {
        lemma_pow_next(2, e - 1);
        lemma_pow_next(2, e - 2);
        lemma_pow_next(2, e - 3);
        lemma_pow_next(2, e - 4);
        lemma_pow_next(2, e - 5);
        let b = pow(2, (e - 5) as nat);
        assert(pow(2, e as nat) == 32 * b);
        assert(pow(2, (e - 1) as nat) == 16 * b);
    } else if e >= 1 {
        lemma_pow_next(2, e - 1);
    }
}

/// Splits off the lowest signed digit of a number: a number that leaves a
/// multiple of 32 if the number is odd.
fn next_digit(x: &mut [u64; 5]) -> (d: i8)
    requires
        value5(old(x)@) <= 0x1_0000_0000_0000_0000_0000_0000_0000_0000_0000_0000_0000_0000_0000_0000_0000_0000int,
    ensures
        2 * value5(final(x)@) + d == value5(old(x)@),
        is_digit(d),
        ({
            let n = value5(old(x)@);
            if n % 2 == 0 {
                d == 0
            } else if n % 32 < 16 {
                d == n % 32
            } else {
                d == n % 32 - 32
            }
        }),
{
    proof {
        lemma_bits(x[0], 0);
        lemma_low_bits(x@);
    }
    let mut digit: i8 = 0;
    if x[0] & 1 == 1 {
        let window: u64 = x[0] & 31;
        if window >= 16 {
            let addend: u64 = 32 - window;
            add_small(x, addend);
            digit = -(addend as i8);
        } else {
            let low: u64 = x[0] - window;
            *x = [low, x[1], x[2], x[3], x[4]];
            digit = window as i8;
        }
    }
    halve(x);
    digit
}

/// The signed digits of a scalar, in windows of five.
pub fn compute_naf_w5(scalar: &Fr) -> (naf: [i8; 257])
    ensures
        naf_value(naf@) == scalar.value(),
        is_naf(naf@),
{
    let mut naf: [i8; 257] = [0i8; 257];
    let limbs = (*scalar).into_bigint();
    let mut x: [u64; 5] = [limbs[0], limbs[1], limbs[2], limbs[3], 0];
    let ghost v = scalar.value();
    let ghost mut e: int = 0;
    proof {
        lemma_order();
        lemma_pow_32();
        lemma_pow2_256();
        lemma_pow0(2);
        assert(value5(x@) == v);
    }
    let mut i: usize = 0;
    while i < 257
        invariant
            i <= 257,
            v == scalar.value(),
            naf@.len() == 257,
            0 <= value5(x@) <= rest_bound(i as int),
            low_value(naf@, i as int) + pow(2, i as nat) * value5(x@) == v,
            forall|t: int| 0 <= t < i ==> #[trigger] is_digit(naf@[t]),
            forall|s: int, t: int| 0 <= s < t < i && naf@[s] != 0 && naf@[t] != 0 ==> t - s >= 5,
            0 <= e <= 4,
            value5(x@) % pow(2, e as nat) == 0,
            forall|s: int| 0 <= s < i && #[trigger] naf@[s] != 0 ==> (i - s) + e >= 5,
        decreases 257 - i,
    {
        let ghost n0 = value5(x@);
        let ghost d0 = naf@;
        let ghost e0 = e;
        proof {
            lemma_rest(n0, i as int);
            lemma_rest_small(i as int);
            lemma_pow2_256();
            lemma_even_power(n0, e0);
        }
        let digit: i8 = next_digit(&mut x);
        naf[i] = digit;
        proof {
            e = if digit != 0 {
                4
            } else if e0 > 0 {
                e0 - 1
            } else {
                0
            };
            let n2 = value5(x@);
            lemma_digit(d0, naf@, i as int, n0, n0 - digit, n2);
            lemma_halved_power(n0, n0 - digit, n2, e0, e, digit as int);
            lemma_naf_push(d0, naf@, i as int, e0, e);
        }
        i += 1;
    }
    proof {
        assert(pow(2, 257) * 0 == 0);
        assert(value5(x@) == 0);
    }
    naf
}

/// One more digit keeps the digits apart.
proof fn lemma_naf_push(d0: Seq<i8>, d1: Seq<i8>, i: int, e0: int, e: int)
    requires
        0 <= i < d0.len(),
        d1 == d0.update(i, d1[i]),
        is_digit(d1[i]),
        forall|t: int| 0 <= t < i ==> #[trigger] is_digit(d0[t]),
        forall|s: int, t: int| 0 <= s < t < i && d0[s] != 0 && d0[t] != 0 ==> t - s >= 5,
        forall|s: int| 0 <= s < i && #[trigger] d0[s] != 0 ==> (i - s) + e0 >= 5,
        d1[i] != 0 ==> e0 == 0 && e == 4,
        d1[i] == 0 ==> e >= e0 - 1,
        e >= 0,
    ensures
        forall|t: int| 0 <= t < i + 1 ==> #[trigger] is_digit(d1[t]),
        forall|s: int, t: int| 0 <= s < t < i + 1 && d1[s] != 0 && d1[t] != 0 ==> t - s >= 5,
        forall|s: int| 0 <= s < i + 1 && #[trigger] d1[s] != 0 ==> (i + 1 - s) + e >= 5,
{
    assert forall|t: int| 0 <= t < i + 1 implies #[trigger] is_digit(d1[t]) by {
        if t < i {
            assert(is_digit(d0[t]));
        }
    }
    assert forall|s: int, t: int| 0 <= s < t < i + 1 && d1[s] != 0 && d1[t] != 0 implies t - s >= 5 by {
        assert(d1[s] == d0[s]);
        if t < i {
            assert(d1[t] == d0[t]);
        }
    }
    assert forall|s: int| 0 <= s < i + 1 && #[trigger] d1[s] != 0 implies (i + 1 - s) + e >= 5 by {
        if s < i {
            assert(d1[s] == d0[s]);
        }
    }
}

/// The bound on what is left fits.
proof fn lemma_rest_small(i: int)
    requires
        0 <= i <= 257,
    ensures
        rest_bound(i) <= pow(2, 256),
{
    lemma_pow0(2);
    if i <= 256 {
        vstd::arithmetic::power::lemma_pow_increases(2, (256 - i) as nat, 256);
    } else {
        vstd::arithmetic::power::lemma_pow_positive(2, 256);
    }
}

/// The low bits of a number are those of its lowest digit.
pub(crate) proof fn lemma_low_bits(x: Seq<u64>)
    ensures
        value5(x) % 32 == x[0] % 32,
        value5(x) % 2 == x[0] % 2,
{
    let k = 0x800_0000_0000_0000int * x[1] + 0x800_0000_0000_0000_0000_0000_0000_0000int * x[2]
        + 0x800_0000_0000_0000_0000_0000_0000_0000_0000_0000_0000_0000int * x[3]
        + 0x800_0000_0000_0000_0000_0000_0000_0000_0000_0000_0000_0000_0000_0000_0000_0000int * x[4];
    assert(value5(x) == 32 * k + x[0]);
    vstd::arithmetic::div_mod::lemma_mod_multiples_vanish(k, x[0] as int, 32);
    vstd::arithmetic::div_mod::lemma_mod_multiples_vanish(16 * k, x[0] as int, 2);
}

/// A multiple of a power of two that is odd.
proof fn lemma_even_power(n: int, e: int)
    requires
        0 <= e <= 4,
        n % pow(2, e as nat) == 0,
    ensures
        n % 2 == 1 ==> e == 0,
{
    lemma_pow2_small();
}

/// The digits so far, and what is left, after one more digit.
proof fn lemma_digit(d0: Seq<i8>, d1: Seq<i8>, i: int, n0: int, n1: int, n2: int)
    requires
        0 <= i < d0.len(),
        d0.len() == d1.len(),
        forall|t: int| 0 <= t < i ==> #[trigger] d1[t] == d0[t],
        n1 == n0 - d1[i],
        2 * n2 == n1,
    ensures
        low_value(d1, i + 1) + pow(2, (i + 1) as nat) * n2 == low_value(d0, i) + pow(2, i as nat) * n0,
{
    let f0 = |t: int| d0[t] * pow(2, t as nat);
    let f1 = |t: int| d1[t] * pow(2, t as nat);
    assert forall|t: int| 0 <= t < i implies #[trigger] f1(t) == f0(t) by {
        assert(d1[t] == d0[t]);
    }
    lemma_sum_ext(i, f1, f0);
    lemma_pow_next(2, i);
    let (p, d) = (pow(2, i as nat), d1[i] as int);
    assert(d * p + (2 * p) * n2 == p * (d + 2 * n2)) by (nonlinear_arith);
}

/// How often what is left can be halved.
proof fn lemma_halved_power(n0: int, n1: int, n2: int, e0: int, e: int, d: int)
    requires
        0 <= e0 <= 4,
        n0 % pow(2, e0 as nat) == 0,
        2 * n2 == n1,
        d != 0 ==> n1 % 32 == 0 && e == 4,
        d == 0 ==> n1 == n0 && e == (if e0 > 0 {
            e0 - 1
        } else {
            0
        }),
    ensures
        n2 % pow(2, e as nat) == 0,
{
    lemma_pow2_small();
}

// ---------------------------------------------------------------------------
// Multiplication
// ---------------------------------------------------------------------------

/// The number whose digits are those from `i` on.
spec fn high_value(d: Seq<i8>, i: int) -> int
    decreases d.len() - i,
{
    if i >= d.len() {
        0
    } else {
        d[i] + 2 * high_value(d, i + 1)
    }
}

/// The low and the high digits make the number.
proof fn lemma_high_value(d: Seq<i8>, i: int)
    requires
        0 <= i <= d.len(),
    ensures
        naf_value(d) == low_value(d, i) + pow(2, i as nat) * high_value(d, i),
    decreases d.len() - i,
{
    if i < d.len() {
        lemma_high_value(d, i + 1);
        lemma_pow_next(2, i);
        let (p, v, h) = (pow(2, i as nat), d[i] as int, high_value(d, i + 1));
        assert(v * p + (2 * p) * h == p * (v + 2 * h)) by (nonlinear_arith);
    } else {
        let p = pow(2, i as nat);
        assert(p * 0 == 0);
    }
}

/// The linear combination of the points with the numbers whose digits are
/// those from `i` on.
spec fn combination(nafs: Seq<[i8; 257]>, b: Seq<int>, i: int) -> int {
    sum(nafs.len() as int, |j: int| high_value(nafs[j]@, i) * b[j])
}

/// The linear combination of the first `m` points with the `i`-th digits.
spec fn digit_sum(nafs: Seq<[i8; 257]>, b: Seq<int>, i: int, m: int) -> int {
    sum(m, |j: int| nafs[j]@[i] * b[j])
}

/// One more digit.
proof fn lemma_combination(nafs: Seq<[i8; 257]>, b: Seq<int>, i: int)
    requires
        0 <= i < 257,
    ensures
        combination(nafs, b, i) == digit_sum(nafs, b, i, nafs.len() as int) + 2 * combination(nafs, b, i + 1),
{
    let n = nafs.len() as int;
    let f = |j: int| high_value(nafs[j]@, i) * b[j];
    let g = |j: int| nafs[j]@[i] * b[j];
    let h = |j: int| high_value(nafs[j]@, i + 1) * b[j];
    let h2 = |j: int| 2 * h(j);
    let gh = |j: int| g(j) + h2(j);
    assert forall|j: int| 0 <= j < n implies #[trigger] f(j) == gh(j) by {
        let (v, u, x) = (nafs[j]@[i] as int, high_value(nafs[j]@, i + 1), b[j]);
        assert(high_value(nafs[j]@, i) == v + 2 * u);
        assert((v + 2 * u) * x == v * x + 2 * (u * x)) by (nonlinear_arith);
    }
    lemma_sum_ext(n, f, gh);
    lemma_sum_add(n, g, h2);
    lemma_sum_ext(n, gh, |j: int| g(j) + h2(j));
    lemma_sum_scale(n, 2, h);
    lemma_sum_ext(n, h2, |j: int| 2 * h(j));
}

/// All digits.
proof fn lemma_combination_all(nafs: Seq<[i8; 257]>, s: Seq<int>, b: Seq<int>)
    requires
        nafs.len() == s.len(),
        forall|j: int| 0 <= j < s.len() ==> naf_value((#[trigger] nafs[j])@) == s[j],
    ensures
        combination(nafs, b, 0) == dot(s, b),
{
    let f = |j: int| high_value(nafs[j]@, 0) * b[j];
    let g = |j: int| s[j] * b[j];
    assert forall|j: int| 0 <= j < s.len() implies #[trigger] f(j) == g(j) by {
        lemma_high_value(nafs[j]@, 0);
        lemma_pow0(2);
        assert(naf_value(nafs[j]@) == s[j]);
    }
    lemma_sum_ext(s.len() as int, f, g);
}

/// The table holds, for each point, its first eight odd multiples.
spec fn is_table(t: Seq<int>, b: Seq<int>) -> bool {
    &&& t.len() == 8 * b.len()
    &&& forall|j: int, i: int|
        0 <= j < b.len() && 0 <= i < 8 ==> #[trigger] t[8 * j + i] == md((2 * i + 1) * b[j], order())
}

/// Appends the first eight odd multiples of a point.
fn push_odd_multiples(flat: &mut Vec<Projective>, base: Affine)
    ensures
        final(flat)@.len() == old(flat)@.len() + 8,
        forall|i: int| 0 <= i < old(flat)@.len() ==> #[trigger] final(flat)@[i] == old(flat)@[i],
        forall|i: int|
            0 <= i < 8 ==> point_index(#[trigger] final(flat)@[old(flat)@.len() + i]) == md(
                (2 * i + 1) * affine_index(base),
                order(),
            ),
{
    let ghost b = affine_index(base);
    let ghost q = order();
    let p = base.into_group();
    let p2 = p.double();
    let mut cur = p;
    proof {
        lemma_order();
        lemma_affine_index(base);
        lemma_md_small(2, q);
        assert(1 * b == b);
        assert(mul_mod(2, b, q) == md(2 * b, q));
    }
    let ghost n = flat@.len() as int;
    flat.push(cur);
    let mut i: usize = 1;
    while i < 8
        invariant
            1 <= i <= 8,
            q == order(),
            q > 3,
            b == affine_index(base),
            n == old(flat)@.len(),
            flat@.len() == n + i,
            point_index(p2) == md(2 * b, q),
            point_index(cur) == md((2 * (i - 1) + 1) * b, q),
            forall|t: int| 0 <= t < n ==> #[trigger] flat@[t] == old(flat)@[t],
            forall|t: int|
                0 <= t < i ==> point_index(#[trigger] flat@[n + t]) == md((2 * t + 1) * b, q),
        decreases 8 - i,
    {
        cur = cur.add_point(p2);
        proof {
            let k = i as int;
            assert((2 * (k - 1) + 1) * b + 2 * b == (2 * k + 1) * b) by (nonlinear_arith);
        }
        flat.push(cur);
        i += 1;
    }
}

/// Multiplies a point by the absolute value of a digit, by looking it up, and
/// adds or subtracts it.
fn add_digit(result: Projective, digit: i8, table: &Vec<Affine>, j: usize, Ghost(b): Ghost<Seq<int>>) -> (r: Projective)
    requires
        is_digit(digit),
        j < b.len(),
        8 * b.len() <= usize::MAX,
        is_table(affine_indices(table@), b),
    ensures
        point_index(r) == md(point_index(result) + digit * b[j as int], order()),
{
    let ghost q = order();
    proof {
        lemma_order();
        lemma_point_index(result);
    }
    if digit == 0 {
        proof {
            let x = b[j as int];
            assert(0 * x == 0);
        }
        result
    } else {
        let magnitude: usize = if digit > 0 {
            digit as usize
        } else {
            (-digit) as usize
        };
        let idx: usize = (magnitude - 1) / 2;
        assert(2 * idx + 1 == magnitude);
        assert(8 * j + idx < 8 * b.len());
        let entry = table[j * 8 + idx];
        let ghost n = b[j as int];
        proof {
            assert(affine_indices(table@)[8 * j + idx as int] == md((2 * idx + 1) * n, q));
            assert(affine_index(entry) == md(magnitude * n, q));
        }
        if digit > 0 {
            result.add_affine(entry)
        } else {
            proof {
                let m = magnitude as int;
                assert(digit * n == -(m * n)) by (nonlinear_arith)
                    requires
                        digit == -m,
                ;
            }
            result.sub_affine(entry)
        }
    }
}

/// Variable-time linear combination with Straus' method on signed digits.
pub fn straus_naf5(scalars: &[Fr], bases: &[Affine]) -> (r: Projective)
    requires
        scalars@.len() == bases@.len(),
        8 * bases@.len() <= usize::MAX,
    ensures
        point_index(r) == md(dot(values(scalars@), affine_indices(bases@)), order()),
{
    let n: usize = scalars.len();
    let ghost q = order();
    let ghost b = affine_indices(bases@);
    proof {
        lemma_order();
    }

    let mut nafs: Vec<[i8; 257]> = Vec::new();
    let mut proj_flat: Vec<Projective> = Vec::new();
    let mut j: usize = 0;
    while j < n
        invariant
            j <= n,
            n == scalars@.len(),
            n == bases@.len(),
            b == affine_indices(bases@),
            nafs@.len() == j,
            proj_flat@.len() == 8 * j,
            forall|t: int|
                0 <= t < j ==> naf_value((#[trigger] nafs@[t])@) == scalars@[t].value() && is_naf(nafs@[t]@),
            forall|t: int, i: int|
                0 <= t < j && 0 <= i < 8 ==> point_index(#[trigger] proj_flat@[8 * t + i]) == md(
                    (2 * i + 1) * b[t],
                    order(),
                ),
        decreases n - j,
    {
        nafs.push(compute_naf_w5(&scalars[j]));
        let ghost before = proj_flat@;
        push_odd_multiples(&mut proj_flat, bases[j]);
        proof {
            assert forall|t: int, i: int| 0 <= t < j + 1 && 0 <= i < 8 implies point_index(
                #[trigger] proj_flat@[8 * t + i],
            ) == md((2 * i + 1) * b[t], order()) by {
                if t < j {
                    assert(proj_flat@[8 * t + i] == before[8 * t + i]);
                } else {
                    assert(proj_flat@[before.len() + i] == proj_flat@[8 * t + i]);
                }
            }
        }
        j += 1;
    }
    let affine_flat = Projective::normalize_batch(proj_flat.as_slice());
    proof {
        assert(is_table(affine_indices(affine_flat@), b)) by {
            assert forall|t: int, i: int| 0 <= t < b.len() && 0 <= i < 8 implies #[trigger] affine_indices(
                affine_flat@,
            )[8 * t + i] == md((2 * i + 1) * b[t], order()) by {
                assert(point_indices(proj_flat@)[8 * t + i] == point_index(proj_flat@[8 * t + i]));
            }
        }
    }

    let mut result = Projective::zero();
    proof {
        lemma_md_small(0, q);
        lemma_sum_zero(n as int, |j: int| high_value(nafs@[j]@, 257) * b[j]);
    }
    let mut i: usize = 257;
    while i > 0
        invariant
            i <= 257,
            n == scalars@.len(),
            n == bases@.len(),
            8 * n <= usize::MAX,
            q == order(),
            q > 3,
            b == affine_indices(bases@),
            nafs@.len() == n,
            forall|t: int| 0 <= t < n ==> is_naf((#[trigger] nafs@[t])@),
            is_table(affine_indices(affine_flat@), b),
            point_index(result) == md(combination(nafs@, b, i as int), q),
        decreases i,
    {
        i -= 1;
        let ghost c = combination(nafs@, b, i + 1);
        result = result.double();
        proof {
            lemma_md_small(2, q);
            assert(mul_mod(2, md(c, q), q) == md(2 * c, q)) by {
                assert(mul_mod(md(2, q), md(c, q), q) == md(2 * c, q));
            }
            assert(digit_sum(nafs@, b, i as int, 0) == 0);
        }
        let mut j: usize = 0;
        while j < n
            invariant
                j <= n,
                i < 257,
                n == bases@.len(),
                8 * n <= usize::MAX,
                q == order(),
                q > 3,
                b == affine_indices(bases@),
                nafs@.len() == n,
                forall|t: int| 0 <= t < n ==> is_naf((#[trigger] nafs@[t])@),
                is_table(affine_indices(affine_flat@), b),
                point_index(result) == md(2 * c + digit_sum(nafs@, b, i as int, j as int), q),
            decreases n - j,
        {
            let digit: i8 = nafs[j][i];
            let ghost before = point_index(result);
            let ghost w = 2 * c + digit_sum(nafs@, b, i as int, j as int);
            proof {
                assert(is_naf(nafs@[j as int]@));
                assert(is_digit(nafs@[j as int]@[i as int]));
            }
            result = add_digit(result, digit, &affine_flat, j, Ghost(b));
            proof {
                let d = digit * b[j as int];
                lemma_md_range(w, q);
                lemma_eqm_add(md(w, q), w, d, d, q);
            }
            j += 1;
        }
        proof {
            lemma_combination(nafs@, b, i as int);
        }
    }
    proof {
        lemma_combination_all(nafs@, values(scalars@), b);
    }
    result
}

/// Variable-time linear combination of `bases` with the coefficients
/// `scalars`.
pub fn vartime_multiscalar_mul(scalars: &[Fr], bases: &[Affine]) -> (r: Projective)
    requires
        scalars@.len() == bases@.len(),
    ensures
        point_index(r) == md(dot(values(scalars@), affine_indices(bases@)), order()),
{
    let n: usize = scalars.len();
    if n == 0 {
        proof {
            lemma_order();
            lemma_md_small(0, order());
        }
        return Projective::zero();
    }
    if n < STRAUS_THRESHOLD {
        straus_naf5(scalars, bases)
    } else {
        Projective::multi_scalar_mul(bases, scalars)
    }
}

} // verus!
