//! Folding of vectors: cutting a vector into `k` blocks of one length and
//! adding the blocks up with weights.

use vstd::arithmetic::power::pow;
use vstd::prelude::*;
use crate::group::{Field, Group, indices, values};
use crate::modular::{group_mod, inv_mod, lemma_md_small, lemma_pow_next, md};
use crate::sums::{dot, lemma_sum_ext, sum};
use crate::util::scalar_exp_vartime;

verus! {

broadcast use group_mod;

/// The length of a vector of length `n` once it was padded to a multiple of
/// `k` and folded into one of its `k` blocks.
pub open spec fn folded_len(n: int, k: int) -> int {
    (n + k - 1) / k
}

/// The length of a vector of length `n` after `r` foldings.
pub open spec fn round_len(n: int, k: int, r: int) -> int
    decreases r,
{
    if r <= 0 {
        n
    } else {
        folded_len(round_len(n, k, r - 1), k)
    }
}

/// `s` followed by `extra` zeros.
pub open spec fn pad(s: Seq<int>, extra: int) -> Seq<int> {
    s + Seq::new(extra as nat, |i: int| 0)
}

/// `s` padded for a folding of length `n`.
pub open spec fn pad_for(s: Seq<int>, n: int, k: int) -> Seq<int> {
    pad(s, k * folded_len(n, k) - n)
}

/// The inner product of block `i` of `x` and block `j` of `y`.
pub open spec fn pairing(x: Seq<int>, i: int, y: Seq<int>, j: int, m: int) -> int {
    sum(m, |t: int| x[i * m + t] * y[j * m + t])
}

/// The inner products of the blocks of `x` with those of `y` that stand `l`
/// further on.
pub open spec fn upper(x: Seq<int>, y: Seq<int>, k: int, m: int, l: int) -> int {
    sum(k - l, |i: int| pairing(x, i, y, i + l, m))
}

/// The inner products of the blocks of `x` with those of `y` that stand `l`
/// further back.
pub open spec fn lower(x: Seq<int>, y: Seq<int>, k: int, m: int, l: int) -> int {
    sum(k - l, |i: int| pairing(x, i + l, y, i, m))
}

/// The blocks of `s`, of length `m` each, added up with the weights `w`.
pub open spec fn fold(s: Seq<int>, w: Seq<int>, m: int, q: int) -> Seq<int> {
    Seq::new(m as nat, |j: int| md(sum(w.len() as int, |i: int| w[i] * s[i * m + j]), q))
}

/// The weights `c^e, c^(e - 1), .., c^(e - k + 1)`.
pub open spec fn falling(c: int, e: int, k: int, q: int) -> Seq<int> {
    Seq::new(k as nat, |i: int| md(pow(c, e as nat) * pow(inv_mod(c, q), i as nat), q))
}

pub proof fn lemma_folded_len(n: int, k: int)
    requires
        n >= 0,
        k >= 1,
    ensures
        0 <= folded_len(n, k) <= n,
        n >= 1 ==> folded_len(n, k) >= 1,
        n <= k * folded_len(n, k) < n + k,
        n % k == 0 ==> k * folded_len(n, k) == n,
        n % k != 0 ==> k * folded_len(n, k) == n + (k - n % k),
{
    let m = folded_len(n, k);
    let r = n % k;
    let d = n / k;
    vstd::arithmetic::div_mod::lemma_fundamental_div_mod(n, k);
    vstd::arithmetic::div_mod::lemma_mod_bound(n, k);
    if r == 0 {
        assert(m == d) by {
            assert(n + k - 1 == d * k + (k - 1)) by (nonlinear_arith)
                requires
                    n == k * d + r,
                    r == 0,
            ;
            vstd::arithmetic::div_mod::lemma_fundamental_div_mod_converse(n + k - 1, k, d, k - 1);
        }
    } else {
        assert(m == d + 1) by {
            assert(n + k - 1 == (d + 1) * k + (r - 1)) by (nonlinear_arith)
                requires
                    n == k * d + r,
            ;
            vstd::arithmetic::div_mod::lemma_fundamental_div_mod_converse(n + k - 1, k, d + 1, r - 1);
        }
        assert(k * (d + 1) == k * d + k) by (nonlinear_arith);
    }
    assert(d >= 0) by (nonlinear_arith)
        requires
            n == k * d + r,
            r < k,
            n >= 0,
            k >= 1,
    ;
    assert(k * m >= m) by (nonlinear_arith)
        requires
            k >= 1,
            m >= 0,
    ;
    assert(m <= n) by (nonlinear_arith)
        requires
            k >= 1,
            m >= 0,
            k * m < n + k,
            n >= 0,
            n >= 1 || m == 0 || k * m < k,
    ;
}

pub proof fn lemma_round_len(n: int, k: int, r: int)
    requires
        n >= 0,
        k >= 1,
    ensures
        0 <= round_len(n, k, r) <= n,
        n >= 1 ==> round_len(n, k, r) >= 1,
    decreases r,
{
    if r > 0 {
        lemma_round_len(n, k, r - 1);
        lemma_folded_len(round_len(n, k, r - 1), k);
    }
}

/// Block `i` of `k` blocks of length `m` lies within the first `k * m` entries.
pub proof fn lemma_block_index(i: int, t: int, k: int, m: int)
    requires
        0 <= i < k,
        0 <= t < m,
    ensures
        0 <= i * m <= i * m + t < k * m,
{
    assert(0 <= i * m) by (nonlinear_arith)
        requires
            i >= 0,
            m >= 0,
    ;
    assert(i * m + m <= k * m) by (nonlinear_arith)
        requires
            i + 1 <= k,
            m >= 0,
    ;
}

pub proof fn lemma_dot_push(a: Seq<int>, b: Seq<int>, x: int, y: int)
    requires
        a.len() == b.len(),
    ensures
        dot(a.push(x), b.push(y)) == dot(a, b) + x * y,
{
    let n = a.len() as int;
    let f = |i: int| a[i] * b[i];
    let g = |i: int| a.push(x)[i] * b.push(y)[i];
    lemma_sum_ext(n, g, f);
    assert(sum(n + 1, g) == sum(n, g) + g(n));
}

/// A vector with the entries of a slice.
pub(crate) fn copy_slice<T: Copy>(s: &[T]) -> (r: Vec<T>)
    ensures
        r@ == s@,
{
    let mut out: Vec<T> = Vec::new();
    let mut i: usize = 0;
    while i < s.len()
        invariant
            i <= s@.len(),
            out@ == s@.take(i as int),
        decreases s@.len() - i,
    {
        out.push(s[i]);
        i += 1;
        assert(s@.take(i as int) =~= s@.take(i - 1).push(s@[i - 1]));
    }
    assert(s@.take(s@.len() as int) =~= s@);
    out
}

/// Appends `extra` zeros.
pub(crate) fn pad_scalars<F: Field>(v: &mut Vec<F>, extra: usize)
    ensures
        values(final(v)@) == pad(values(old(v)@), extra as int),
{
    let ghost s0 = v@;
    let mut i: usize = 0;
    while i < extra
        invariant
            i <= extra,
            v@.len() == s0.len() + i,
            forall|j: int| 0 <= j < s0.len() ==> #[trigger] v@[j] == s0[j],
            forall|j: int| s0.len() <= j < v@.len() ==> (#[trigger] v@[j]).value() == 0,
        decreases extra - i,
    {
        v.push(F::zero());
        i += 1;
    }
    assert(values(v@) =~= pad(values(s0), extra as int));
}

/// Appends `extra` neutral elements.
pub(crate) fn pad_points<G: Group>(v: &mut Vec<G::Point>, extra: usize)
    ensures
        indices::<G>(final(v)@) == pad(indices::<G>(old(v)@), extra as int),
{
    let ghost s0 = v@;
    let mut i: usize = 0;
    while i < extra
        invariant
            i <= extra,
            v@.len() == s0.len() + i,
            forall|j: int| 0 <= j < s0.len() ==> #[trigger] v@[j] == s0[j],
            forall|j: int| s0.len() <= j < v@.len() ==> G::index(#[trigger] v@[j]) == 0,
        decreases extra - i,
    {
        v.push(G::identity());
        i += 1;
    }
    assert(indices::<G>(v@) =~= pad(indices::<G>(s0), extra as int));
}

/// Appends block `i` of `s` to `scalars` and block `j` of `p` to `points`.
pub(crate) fn extend_blocks<G: Group>(
    scalars: &mut Vec<G::Scalar>,
    points: &mut Vec<G::Point>,
    s: &[G::Scalar],
    i: usize,
    p: &[G::Point],
    j: usize,
    m: usize,
)
    requires
        old(scalars)@.len() == old(points)@.len(),
        (i + 1) * m <= s@.len(),
        (j + 1) * m <= p@.len(),
    ensures
        final(scalars)@.len() == final(points)@.len(),
        dot(values(final(scalars)@), indices::<G>(final(points)@)) == dot(
            values(old(scalars)@),
            indices::<G>(old(points)@),
        ) + pairing(values(s@), i as int, indices::<G>(p@), j as int, m as int),
{
    let ghost start = dot(values(scalars@), indices::<G>(points@));
    let ghost f = |t: int| values(s@)[i * m + t] * indices::<G>(p@)[j * m + t];
    proof {
        assert((i + 1) * m == i * m + m) by (nonlinear_arith);
        assert((j + 1) * m == j * m + m) by (nonlinear_arith);
        assert(i * m >= 0) by (nonlinear_arith);
        assert(j * m >= 0) by (nonlinear_arith);
    }
    let n_s: usize = s.len();
    let n_p: usize = p.len();
    let mut t: usize = 0;
    while t < m
        invariant
            t <= m,
            n_s == s@.len(),
            n_p == p@.len(),
            0 <= i * m,
            0 <= j * m,
            i * m + m <= s@.len(),
            j * m + m <= p@.len(),
            scalars@.len() == points@.len(),
            f == |t: int| values(s@)[i * m + t] * indices::<G>(p@)[j * m + t],
            dot(values(scalars@), indices::<G>(points@)) == start + sum(t as int, f),
        decreases m - t,
    {
        let ghost (sc, pt) = (values(scalars@), indices::<G>(points@));
        scalars.push(s[i * m + t]);
        points.push(p[j * m + t]);
        t += 1;
        proof {
            let x = values(s@)[i * m + (t - 1)];
            let y = indices::<G>(p@)[j * m + (t - 1)];
            lemma_dot_push(sc, pt, x, y);
            assert(values(scalars@) =~= sc.push(x));
            assert(indices::<G>(points@) =~= pt.push(y));
        }
    }
}

/// The inner product of block `i` of `a` and block `j` of `b`.
pub(crate) fn block_inner_product<F: Field>(a: &[F], i: usize, b: &[F], j: usize, m: usize) -> (r: F)
    requires
        (i + 1) * m <= a@.len(),
        (j + 1) * m <= b@.len(),
    ensures
        r.value() == md(pairing(values(a@), i as int, values(b@), j as int, m as int), F::modulus()),
{
    let ghost q = F::modulus();
    let ghost f = |t: int| values(a@)[i * m + t] * values(b@)[j * m + t];
    let mut out = F::zero();
    proof {
        F::modulus_range();
        lemma_md_small(0, q);
        assert((i + 1) * m == i * m + m) by (nonlinear_arith);
        assert((j + 1) * m == j * m + m) by (nonlinear_arith);
        assert(i * m >= 0) by (nonlinear_arith);
        assert(j * m >= 0) by (nonlinear_arith);
    }
    let n_a: usize = a.len();
    let n_b: usize = b.len();
    let mut t: usize = 0;
    while t < m
        invariant
            t <= m,
            n_a == a@.len(),
            n_b == b@.len(),
            q == F::modulus(),
            q > 1,
            0 <= i * m,
            0 <= j * m,
            i * m + m <= a@.len(),
            j * m + m <= b@.len(),
            f == |t: int| values(a@)[i * m + t] * values(b@)[j * m + t],
            out.value() == md(sum(t as int, f), q),
        decreases m - t,
    {
        proof {
            a@[i * m + t].value_range();
            b@[j * m + t].value_range();
        }
        out = out.plus(a[i * m + t].times(b[j * m + t]));
        t += 1;
    }
    out
}

/// Adds up the blocks of `v` with the weights `w`.
pub(crate) fn fold_scalars<F: Field>(v: &[F], w: &[F], m: usize) -> (r: Vec<F>)
    requires
        w@.len() * m <= v@.len(),
    ensures
        values(r@) == fold(values(v@), values(w@), m as int, F::modulus()),
{
    let ghost q = F::modulus();
    let k: usize = w.len();
    let n: usize = v.len();
    proof {
        F::modulus_range();
        lemma_md_small(0, q);
    }
    let mut out: Vec<F> = Vec::new();
    let mut j: usize = 0;
    while j < m
        invariant
            j <= m,
            k == w@.len(),
            n == v@.len(),
            k * m <= n,
            q == F::modulus(),
            q > 1,
            md(0, q) == 0,
            out@.len() == j,
            forall|x: int| 0 <= x < j ==> (#[trigger] out@[x]).value() == fold(values(v@), values(w@), m as int, q)[x],
        decreases m - j,
    {
        let ghost f = |i: int| values(w@)[i] * values(v@)[i * m + j];
        let mut acc = F::zero();
        let mut i: usize = 0;
        while i < k
            invariant
                i <= k,
                j < m,
                k == w@.len(),
                n == v@.len(),
                k * m <= n,
                q == F::modulus(),
                q > 1,
                f == |i: int| values(w@)[i] * values(v@)[i * m + j],
                acc.value() == md(sum(i as int, f), q),
            decreases k - i,
        {
            proof {
                lemma_block_index(i as int, j as int, k as int, m as int);
                w@[i as int].value_range();
                v@[i * m + j].value_range();
            }
            acc = acc.plus(w[i].times(v[i * m + j]));
            i += 1;
        }
        out.push(acc);
        j += 1;
    }
    assert(values(out@) =~= fold(values(v@), values(w@), m as int, q));
    out
}

/// Adds up the blocks of `v` with the weights `w`.
pub(crate) fn fold_points<G: Group>(v: &[G::Point], w: &[G::Scalar], m: usize) -> (r: Vec<G::Point>)
    requires
        w@.len() * m <= v@.len(),
    ensures
        indices::<G>(r@) == fold(indices::<G>(v@), values(w@), m as int, G::Scalar::modulus()),
{
    let ghost q = G::Scalar::modulus();
    let k: usize = w.len();
    let n: usize = v.len();
    let mut out: Vec<G::Point> = Vec::new();
    let mut j: usize = 0;
    while j < m
        invariant
            j <= m,
            k == w@.len(),
            n == v@.len(),
            k * m <= n,
            q == G::Scalar::modulus(),
            out@.len() == j,
            forall|x: int|
                0 <= x < j ==> G::index(#[trigger] out@[x]) == fold(indices::<G>(v@), values(w@), m as int, q)[x],
        decreases m - j,
    {
        let mut col: Vec<G::Point> = Vec::new();
        let mut i: usize = 0;
        while i < k
            invariant
                i <= k,
                j < m,
                k == w@.len(),
                n == v@.len(),
                k * m <= n,
                col@.len() == i,
                forall|x: int| 0 <= x < i ==> #[trigger] col@[x] == v@[x * m + j],
            decreases k - i,
        {
            proof {
                lemma_block_index(i as int, j as int, k as int, m as int);
            }
            col.push(v[i * m + j]);
            i += 1;
        }
        let p = G::vartime_msm(w, &col);
        proof {
            let f = |i: int| values(w@)[i] * indices::<G>(col@)[i];
            let g = |i: int| values(w@)[i] * indices::<G>(v@)[i * m + j];
            assert forall|i: int| 0 <= i < k implies #[trigger] f(i) == g(i) by {
                lemma_block_index(i, j as int, k as int, m as int);
            }
            lemma_sum_ext(k as int, f, g);
            assert(Seq::new(col@.len(), |i: int| G::index(col@[i])) =~= indices::<G>(col@));
        }
        out.push(p);
        j += 1;
    }
    assert(indices::<G>(out@) =~= fold(indices::<G>(v@), values(w@), m as int, q));
    out
}

/// The weights `c^e, c^(e - 1), .., c^(e - k + 1)`, where `c_inv` is the
/// inverse of `c`.
pub(crate) fn falling_powers<F: Field>(c: F, c_inv: F, e: u64, k: usize) -> (r: Vec<F>)
    requires
        c_inv.value() == inv_mod(c.value(), F::modulus()),
    ensures
        values(r@) == falling(c.value(), e as int, k as int, F::modulus()),
{
    let ghost q = F::modulus();
    let start = scalar_exp_vartime(&c, e);
    let mut cur = start;
    let mut out: Vec<F> = Vec::new();
    let ghost top = pow(c.value(), e as nat);
    proof {
        F::modulus_range();
        vstd::arithmetic::power::lemma_pow0(c_inv.value());
        assert(top * 1 == top);
    }
    let mut i: usize = 0;
    while i < k
        invariant
            i <= k,
            q == F::modulus(),
            q > 1,
            out@.len() == i,
            cur.value() == md(top * pow(c_inv.value(), i as nat), q),
            forall|x: int|
                0 <= x < i ==> (#[trigger] out@[x]).value() == md(top * pow(c_inv.value(), x as nat), q),
        decreases k - i,
    {
        out.push(cur);
        cur = cur.times(c_inv);
        i += 1;
        proof {
            c_inv.value_range();
            let w = c_inv.value();
            lemma_pow_next(w, i - 1);
            let p = pow(w, (i - 1) as nat);
            assert((top * p) * w == top * (p * w)) by (nonlinear_arith);
        }
    }
    assert(values(out@) =~= falling(c.value(), e as int, k as int, q));
    out
}

} // verus!
