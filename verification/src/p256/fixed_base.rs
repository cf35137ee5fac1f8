//! Precomputed tables for fast fixed-base scalar multiplication.

use vstd::arithmetic::div_mod::{lemma_div_denominator, lemma_fundamental_div_mod};
use vstd::arithmetic::power::{lemma_pow0, lemma_pow_adds, lemma_pow_increases, lemma_pow_positive, pow};
use vstd::prelude::*;
use crate::bytes::lemma_pow_32;
use crate::group::Field;
use crate::modular::{group_mod, lemma_md_small, lemma_pow_next, md, mul_mod};
use crate::p256::curve::{
    Affine, Projective, affine_index, lemma_affine_index, lemma_point_index, point_index,
};
use crate::p256::field::{Fr, lemma_order, order};
use crate::sums::sum;
use crate::p256::vartime_msm::{halve, lemma_bits, lemma_low_bits, lemma_pow2_256, value5};

verus! {

broadcast use group_mod;

/// The number without its lowest `p` bits.
pub open spec fn high(v: int, p: int) -> int {
    v / pow(2, p as nat)
}

/// One bit less.
proof fn lemma_high_next(v: int, p: int)
    requires
        v >= 0,
        p >= 0,
    ensures
        high(v, p + 1) == high(v, p) / 2,
        high(v, p) >= 0,
{
    lemma_pow_positive(2, p as nat);
    lemma_pow_next(2, p);
    lemma_div_denominator(v, pow(2, p as nat), 2);
    let q = pow(2, p as nat);
    assert(v / q >= 0) by (nonlinear_arith)
        requires
            v >= 0,
            q > 0,
    ;
    assert(q * 2 == 2 * q);
}

/// A scalar has no more than 256 bits.
proof fn lemma_high_zero(v: int, p: int)
    requires
        0 <= v < order(),
        p >= 256,
    ensures
        high(v, p) == 0,
{
    lemma_order();
    lemma_pow_32();
    lemma_pow2_256();
    lemma_pow_increases(2, 256, p as nat);
    let q = pow(2, p as nat);
    assert(v / q == 0) by (nonlinear_arith)
        requires
            0 <= v < q,
    ;
}

/// The bits of a scalar, least significant first.
pub fn to_bits_le(scalar: &Fr) -> (r: Vec<bool>)
    ensures
        r@.len() == 256,
        forall|p: int| 0 <= p < 256 ==> #[trigger] r@[p] == (high(scalar.value(), p) % 2 == 1),
{
    let limbs = (*scalar).into_bigint();
    let mut x: [u64; 5] = [limbs[0], limbs[1], limbs[2], limbs[3], 0];
    let ghost v = scalar.value();
    let mut out: Vec<bool> = Vec::new();
    proof {
        assert(value5(x@) == v);
        lemma_pow0(2);
        assert(v / 1 == v);
        scalar.value_range();
    }
    let mut p: usize = 0;
    while p < 256
        invariant
            p <= 256,
            v == scalar.value(),
            0 <= v,
            out@.len() == p,
            value5(x@) == high(v, p as int),
            forall|t: int| 0 <= t < p ==> #[trigger] out@[t] == (high(v, t) % 2 == 1),
        decreases 256 - p,
    {
        proof {
            lemma_bits(x[0], 0);
            lemma_low_bits(x@);
            lemma_high_next(v, p as int);
        }
        let bit: u64 = x[0] & 1;
        out.push(bit == 1);
        let low: u64 = x[0] - bit;
        x = [low, x[1], x[2], x[3], x[4]];
        halve(&mut x);
        p += 1;
    }
    out
}

/// The number of windows of `w` bits in a scalar.
pub open spec fn window_count(w: int) -> int {
    (256 + w - 1) / w
}

/// Precomputed table for fast fixed-base scalar multiplication.
pub struct FixedBaseTable {
    table: Vec<Vec<Affine>>,
    window_size: usize,
}

/// The entries for a window: multiples of `b`.
spec fn is_window(t: Seq<Affine>, w: int, b: int) -> bool {
    &&& t.len() == pow(2, w as nat) - 1
    &&& forall|k: int| 0 <= k < t.len() ==> affine_index(#[trigger] t[k]) == md((k + 1) * b, order())
}

impl FixedBaseTable {
    #[verifier::type_invariant]
    spec fn consistent(self) -> bool {
        let w = self.window_size as int;
        &&& 1 <= w
        &&& pow(2, w as nat) <= usize::MAX
        &&& self.table@.len() == window_count(w)
        &&& forall|i: int|
            0 <= i < self.table@.len() ==> is_window(
                (#[trigger] self.table@[i])@,
                w,
                pow(2, (w * i) as nat) * self.base_index(),
            )
    }

    /// The index of the point that the table is for.
    pub closed spec fn base_index(self) -> int {
        affine_index(self.table@[0]@[0])
    }

    /// The number of bits that are looked up at once.
    pub closed spec fn window(self) -> int {
        self.window_size as int
    }

    /// Computes the multiples of a point that a window can stand for.
    fn create_window(base: Projective, window_size: usize, num_entries: usize) -> (r: Vec<Affine>)
        requires
            num_entries == pow(2, window_size as nat) - 1,
        ensures
            is_window(r@, window_size as int, point_index(base)),
    {
        let ghost b = point_index(base);
        let ghost q = order();
        proof {
            lemma_order();
            lemma_point_index(base);
            assert(1 * b == b);
        }
        let mut window_table: Vec<Affine> = Vec::new();
        let mut acc = base;
        let mut k: usize = 0;
        while k < num_entries
            invariant
                k <= num_entries,
                b == point_index(base),
                q == order(),
                q > 3,
                md(b, q) == b,
                window_table@.len() == k,
                point_index(acc) == md((k + 1) * b, q),
                forall|t: int|
                    0 <= t < k ==> affine_index(#[trigger] window_table@[t]) == md((t + 1) * b, q),
            decreases num_entries - k,
        {
            window_table.push(acc.into_affine());
            acc = acc.add_point(base);
            proof {
                let n = k as int;
                assert((n + 1) * b + b == (n + 2) * b) by (nonlinear_arith);
            }
            k += 1;
        }
        window_table
    }

    /// Computes the table for a point, to look up `window_size` bits at once.
    pub fn create(base: &Projective, window_size: usize) -> (r: Self)
        requires
            1 <= window_size,
            window_size <= usize::MAX - 256,
            pow(2, window_size as nat) <= usize::MAX,
        ensures
            r.base_index() == point_index(*base),
            r.window() == window_size,
    {
        let scalar_bits: usize = 256;
        let num_windows: usize = (scalar_bits + window_size - 1) / window_size;
        let ghost w = window_size as int;
        let ghost b = point_index(*base);
        let ghost q = order();
        proof {
            lemma_order();
            lemma_point_index(*base);
            lemma_pow0(2);
            lemma_pow_increases(2, 1, window_size as nat);
            vstd::arithmetic::power::lemma_pow1(2);
        }
        let mut power: usize = 1;
        let mut c: usize = 0;
        while c < window_size
            invariant
                c <= window_size,
                power == pow(2, c as nat),
                pow(2, window_size as nat) <= usize::MAX,
            decreases window_size - c,
        {
            proof {
                lemma_pow_next(2, c as int);
                lemma_pow_increases(2, (c + 1) as nat, window_size as nat);
            }
            power = power * 2;
            c += 1;
        }
        let num_entries: usize = power - 1;
        let mut table: Vec<Vec<Affine>> = Vec::new();
        let mut window_base = *base;
        let mut i: usize = 0;
        proof {
            assert(w * 0 == 0);
            assert(1 * b == b);
        }
        while i < num_windows
            invariant
                i <= num_windows,
                1 <= window_size,
                w == window_size,
                b == point_index(*base),
                q == order(),
                q > 3,
                num_entries == pow(2, w as nat) - 1,
                table@.len() == i,
                point_index(window_base) == md(pow(2, (w * i) as nat) * b, q),
                forall|t: int|
                    0 <= t < i ==> is_window((#[trigger] table@[t])@, w, md(pow(2, (w * t) as nat) * b, q)),
            decreases num_windows - i,
        {
            let window_table = Self::create_window(window_base, window_size, num_entries);
            table.push(window_table);
            let ghost start = w * i;
            let mut c: usize = 0;
            assert(start >= 0) by (nonlinear_arith)
                requires
                    start == w * i,
                    w >= 0,
            ;
            while c < window_size
                invariant
                    c <= window_size,
                    start >= 0,
                    q == order(),
                    q > 3,
                    point_index(window_base) == md(pow(2, (start + c) as nat) * b, q),
                decreases window_size - c,
            {
                proof {
                    lemma_md_small(2, q);
                    lemma_pow_next(2, start + c);
                    let p = pow(2, (start + c) as nat);
                    assert(mul_mod(md(2, q), md(p * b, q), q) == md(2 * (p * b), q));
                    assert(2 * (p * b) == (2 * p) * b) by (nonlinear_arith);
                }
                window_base = window_base.double();
                c += 1;
            }
            proof {
                let n = i as int;
                assert(w * n + w == w * (n + 1)) by (nonlinear_arith);
            }
            i += 1;
        }
        proof {
            assert(window_count(w) >= 1) by (nonlinear_arith)
                requires
                    window_count(w) == (256 + w - 1) / w,
                    w >= 1,
            ;
            lemma_first(table@, w, b);
        }
        FixedBaseTable { table, window_size }
    }

    /// Multiplies the point that the table is for by a scalar.
    pub fn mul(&self, scalar: &Fr) -> (r: Projective)
        ensures
            point_index(r) == mul_mod(self.base_index(), scalar.value(), order()),
    {
        proof {
            use_type_invariant(self);
        }
        let bits = to_bits_le(scalar);
        let w: usize = self.window_size;
        let ghost v = scalar.value();
        let ghost q = order();
        let ghost b = self.base_index();
        let ghost mut low: int = 0;
        proof {
            lemma_order();
            lemma_affine_index(self.table@[0]@[0]);
            scalar.value_range();
            lemma_md_small(0, q);
            lemma_pow0(2);
            assert(b * 0 == 0);
            assert(w * 0 == 0);
            assert(v / 1 == v);
        }
        let mut result = Projective::zero();
        let n: usize = self.table.len();
        let mut i: usize = 0;
        while i < n
            invariant
                i <= n,
                n == self.table@.len(),
                n == window_count(w as int),
                1 <= w,
                pow(2, w as nat) <= usize::MAX,
                w == self.window_size,
                q == order(),
                q > 3,
                b == self.base_index(),
                v == scalar.value(),
                0 <= v < order(),
                bits@.len() == 256,
                forall|p: int| 0 <= p < 256 ==> #[trigger] bits@[p] == (high(v, p) % 2 == 1),
                forall|t: int|
                    0 <= t < n ==> is_window((#[trigger] self.table@[t])@, w as int, pow(2, (w * t) as nat) * b),
                v == low + pow(2, (w * i) as nat) * high(v, w * i),
                point_index(result) == md(b * low, q),
            decreases n - i,
        {
            proof {
                lemma_window_start(w as int, i as int);
            }
            let start: usize = i * w;
            let mut idx: usize = 0;
            let mut bit_value: usize = 1;
            let mut bit_pos: usize = 0;
            proof {
                lemma_pow0(2);
                assert(1 * high(v, start as int) == high(v, start as int));
            }
            while bit_pos < w
                invariant
                    bit_pos <= w,
                    start < 256,
                    pow(2, w as nat) <= usize::MAX,
                    0 <= v < order(),
                    bits@.len() == 256,
                    forall|p: int| 0 <= p < 256 ==> #[trigger] bits@[p] == (high(v, p) % 2 == 1),
                    idx < pow(2, bit_pos as nat),
                    bit_pos < w ==> bit_value == pow(2, bit_pos as nat),
                    idx + pow(2, bit_pos as nat) * high(v, start + bit_pos) == high(v, start as int),
                decreases w - bit_pos,
            {
                let ghost p = start + bit_pos;
                let ghost before = idx as int;
                proof {
                    lemma_high_next(v, p);
                    lemma_pow_next(2, bit_pos as int);
                    lemma_pow_increases(2, (bit_pos + 1) as nat, w as nat);
                    if p >= 256 {
                        lemma_high_zero(v, p);
                    }
                }
                if bit_pos < 256 - start && bits[start + bit_pos] {
                    idx = idx + bit_value;
                }
                proof {
                    let (pw, h) = (pow(2, bit_pos as nat), high(v, p));
                    let d = idx - before;
                    assert(d == pw * (h % 2)) by {
                        assert(pw * 0 == 0);
                        assert(pw * 1 == pw);
                    }
                    assert(pw * h == pw * (h % 2) + (2 * pw) * (h / 2)) by {
                        let (hm, hd) = (h % 2, h / 2);
                        assert(h == 2 * hd + hm);
                        assert(pw * (2 * hd + hm) == pw * hm + (2 * pw) * hd) by (nonlinear_arith);
                    }
                }
                if bit_pos + 1 < w {
                    proof {
                        lemma_pow_increases(2, (bit_pos + 2) as nat, w as nat);
                        lemma_pow_next(2, bit_pos + 1);
                    }
                    bit_value = bit_value * 2;
                }
                bit_pos += 1;
            }
            let ghost l0 = low;
            let ghost ps = pow(2, (w * i) as nat);
            proof {
                low = low + ps * idx;
                let (h1, pw, k) = (high(v, start + w), pow(2, w as nat), idx as int);
                assert(high(v, start as int) == k + pw * h1);
                assert(start == w * i);
                lemma_pow_adds(2, (w * i) as nat, w as nat);
                let n = i as int;
                let ww = w as int;
                assert(ww * n + ww == ww * (n + 1)) by (nonlinear_arith);
                assert(ps * (k + pw * h1) == ps * k + (ps * pw) * h1) by (nonlinear_arith);
                assert(b * (l0 + ps * k) == b * l0 + k * (ps * b)) by (nonlinear_arith);
            }
            if idx > 0 {
                proof {
                    assert(is_window(self.table@[i as int]@, w as int, ps * b));
                    assert(affine_index(self.table@[i as int]@[idx - 1]) == md(idx * (ps * b), q));
                }
                result = result.add_affine(self.table[i][idx - 1]);
            } else {
                proof {
                    let z = ps * b;
                    assert(0 * z == 0);
                }
            }
            i += 1;
        }
        proof {
            lemma_window_end(w as int);
            lemma_high_zero(v, w * n);
            let p = pow(2, (w * n) as nat);
            assert(p * 0 == 0);
            assert(mul_mod(md(b, q), md(v, q), q) == md(b * v, q));
        }
        result
    }

    /// The number of points in the table.
    pub fn table_size_points(&self) -> (r: usize)
        requires
            window_count(self.window()) * (pow(2, self.window() as nat) - 1) <= usize::MAX,
        ensures
            r == window_count(self.window()) * (pow(2, self.window() as nat) - 1),
    {
        proof {
            use_type_invariant(self);
            lemma_pow_positive(2, self.window() as nat);
        }
        let ghost e = pow(2, self.window() as nat) - 1;
        let mut total: usize = 0;
        let mut i: usize = 0;
        assert(0 * e == 0);
        while i < self.table.len()
            invariant
                i <= self.table@.len(),
                self.table@.len() == window_count(self.window()),
                e == pow(2, self.window() as nat) - 1,
                e >= 0,
                window_count(self.window()) * e <= usize::MAX,
                forall|t: int| 0 <= t < self.table@.len() ==> (#[trigger] self.table@[t])@.len() == e,
                total == i * e,
            decreases self.table@.len() - i,
        {
            proof {
                let n = i as int;
                let m = window_count(self.window());
                assert((n + 1) * e == n * e + e) by (nonlinear_arith);
                assert((n + 1) * e <= m * e) by (nonlinear_arith)
                    requires
                        n + 1 <= m,
                        e >= 0,
                ;
                assert(self.table@[n]@.len() == e);
            }
            total = total + self.table[i].len();
            i += 1;
        }
        total
    }

    /// The number of bytes that the points in the table take.
    pub fn table_size_bytes(&self) -> (r: usize)
        requires
            window_count(self.window()) * (pow(2, self.window() as nat) - 1) <= usize::MAX,
            window_count(self.window()) * (pow(2, self.window() as nat) - 1)
                * vstd::layout::size_of::<Affine>() <= usize::MAX,
        ensures
            r == window_count(self.window()) * (pow(2, self.window() as nat) - 1)
                * vstd::layout::size_of::<Affine>(),
    {
        self.table_size_points() * std::mem::size_of::<Affine>()
    }
}

/// The first entry of the first window is the point itself.
proof fn lemma_first(table: Seq<Vec<Affine>>, w: int, b: int)
    requires
        table.len() >= 1,
        w >= 1,
        0 <= b < order(),
        forall|t: int|
            0 <= t < table.len() ==> is_window((#[trigger] table[t])@, w, md(pow(2, (w * t) as nat) * b, order())),
    ensures
        affine_index(table[0]@[0]) == b,
        forall|t: int| 0 <= t < table.len() ==> is_window((#[trigger] table[t])@, w, pow(2, (w * t) as nat) * b),
{
    let q = order();
    lemma_order();
    lemma_pow0(2);
    lemma_pow_increases(2, 1, w as nat);
    vstd::arithmetic::power::lemma_pow1(2);
    assert(w * 0 == 0);
    assert(1 * b == b);
    lemma_md_small(b, q);
    assert(is_window(table[0]@, w, md(pow(2, (w * 0) as nat) * b, q)));
    assert(affine_index(table[0]@[0]) == md((0 + 1) * b, q));
    assert forall|t: int| 0 <= t < table.len() implies is_window(
        (#[trigger] table[t])@,
        w,
        pow(2, (w * t) as nat) * b,
    ) by {
        let c = pow(2, (w * t) as nat) * b;
        assert(is_window(table[t]@, w, md(c, q)));
        assert forall|k: int| 0 <= k < table[t]@.len() implies affine_index(#[trigger] table[t]@[k]) == md(
            (k + 1) * c,
            q,
        ) by {
            crate::modular::lemma_md_range(c, q);
            crate::modular::lemma_eqm_mul(k + 1, k + 1, md(c, q), c, q);
        }
    }
}

/// The bits of a window start below the last bit.
proof fn lemma_window_start(w: int, i: int)
    requires
        w >= 1,
        0 <= i < window_count(w),
    ensures
        0 <= w * i < 256,
        w * i == i * w,
{
    let c = window_count(w);
    lemma_fundamental_div_mod(256 + w - 1, w);
    assert(w * c <= 256 + w - 1);
    assert(w * i + w <= w * c) by (nonlinear_arith)
        requires
            i + 1 <= c,
            w >= 1,
    ;
    assert(w * i == i * w) by (nonlinear_arith);
    assert(0 <= w * i) by (nonlinear_arith)
        requires
            w >= 1,
            i >= 0,
    ;
}

/// The windows cover all bits.
proof fn lemma_window_end(w: int)
    requires
        w >= 1,
    ensures
        w * window_count(w) >= 256,
{
    lemma_fundamental_div_mod(256 + w - 1, w);
}

/// A scalar is the sum of the powers of two at which it has a bit.
pub proof fn law_bits(v: int, bits: Seq<bool>)
    requires
        0 <= v < order(),
        bits.len() == 256,
        forall|p: int| 0 <= p < 256 ==> #[trigger] bits[p] == (high(v, p) % 2 == 1),
    ensures
        v == sum(
            256,
            |p: int|
                if bits[p] {
                    pow(2, p as nat)
                } else {
                    0
                },
        ),
{
    let f = |p: int|
        if bits[p] {
            pow(2, p as nat)
        } else {
            0
        };
    lemma_bit_sum(v, bits, 256);
    lemma_high_zero(v, 256);
    assert(pow(2, 256) * 0 == 0) by (nonlinear_arith);
}

/// The lowest `n` bits, and the number without them.
proof fn lemma_bit_sum(v: int, bits: Seq<bool>, n: int)
    requires
        v >= 0,
        0 <= n <= bits.len(),
        forall|p: int| 0 <= p < bits.len() ==> #[trigger] bits[p] == (high(v, p) % 2 == 1),
    ensures
        v == sum(
            n,
            |p: int|
                if bits[p] {
                    pow(2, p as nat)
                } else {
                    0
                },
        ) + pow(2, n as nat) * high(v, n),
    decreases n,
{
    let f = |p: int|
        if bits[p] {
            pow(2, p as nat)
        } else {
            0
        };
    if n == 0 {
        lemma_pow0(2);
        assert(v / 1 == v);
    } else {
        lemma_bit_sum(v, bits, n - 1);
        lemma_high_next(v, n - 1);
        lemma_pow_next(2, n - 1);
        assert(sum(n, f) == sum(n - 1, f) + f(n - 1));
        let (h, g, p) = (high(v, n - 1), high(v, n), pow(2, (n - 1) as nat));
        assert(bits[n - 1] == (h % 2 == 1));
        assert(h == 2 * g + h % 2);
        assert(p * h == (2 * p) * g + p * (h % 2)) by (nonlinear_arith)
            requires
                h == 2 * g + h % 2,
        ;
        assert(p * 1 == p && p * 0 == 0);
    }
}

/// The windows cover a scalar, and none of them is idle.
pub proof fn law_window_count(w: int)
    requires
        w >= 1,
    ensures
        window_count(w) * w >= 256,
        (window_count(w) - 1) * w < 256,
{
    let c = window_count(w);
    vstd::arithmetic::div_mod::lemma_fundamental_div_mod(256 + w - 1, w);
    vstd::arithmetic::div_mod::lemma_mod_bound(256 + w - 1, w);
    assert(c * w == w * c && (c - 1) * w == w * c - w) by (nonlinear_arith);
}

} // verus!
