//! How inner products behave when the vectors are folded.

use vstd::arithmetic::div_mod::lemma_fundamental_div_mod_converse;
use vstd::arithmetic::power::{lemma_pow0, lemma_pow_adds, pow};
use vstd::prelude::*;
use crate::folding::{
    falling, fold, folded_len, lemma_folded_len, lemma_round_len, lower, pad, pad_for, pairing, round_len,
    upper,
};
use crate::modular::{
    eqm, inv_mod, lemma_eqm_mul, lemma_eqm_sum, lemma_md_range, lemma_pow_cancel, lemma_pow_next, md,
};
use crate::sums::{
    dot, lemma_sum_blocks, lemma_sum_diagonals, lemma_sum_ext, lemma_sum_product, lemma_sum_scale,
    lemma_sum_swap, lemma_sum_truncate, sum,
};
use crate::unfolding::unfold;
use crate::util::powers_of;

verus! {

/// Moving a residue in and out of a product.
pub proof fn lemma_eqm_md_mul(a: int, x: int, q: int)
    requires
        q > 0,
    ensures
        eqm(a * md(x, q), a * x, q),
{
    lemma_md_range(x, q);
    lemma_eqm_mul(a, a, md(x, q), x, q);
}

/// The inner product of `v` with a folded vector is an inner product with the
/// vector itself, in which block `i` meets `v` times the weight `i`.
pub proof fn lemma_fold_dual(v: Seq<int>, x: Seq<int>, wt: Seq<int>, m: int, q: int)
    requires
        q > 0,
        m >= 0,
        v.len() == m,
        x.len() >= wt.len() * m,
    ensures
        eqm(
            dot(v, fold(x, wt, m, q)),
            sum(wt.len() * m, |t: int| v[t % m] * wt[t / m] * x[t]),
            q,
        ),
{
    let k = wt.len() as int;
    let f = |j: int| v[j] * fold(x, wt, m, q)[j];
    let cell = |i: int, j: int| v[j] * (wt[i] * x[i * m + j]);
    let col = |j: int| sum(k, |i: int| cell(i, j));
    assert forall|j: int| 0 <= j < m implies eqm(#[trigger] f(j), col(j), q) by {
        let inner = |i: int| wt[i] * x[i * m + j];
        lemma_eqm_md_mul(v[j], sum(k, inner), q);
        lemma_sum_scale(k, v[j], inner);
        lemma_sum_ext(k, |i: int| v[j] * inner(i), |i: int| cell(i, j));
        lemma_sum_ext(k, |i: int| wt[i] * x[i * m + j], inner);
    }
    lemma_eqm_sum(m, f, col, q);
    lemma_sum_swap(k, m, cell);
    lemma_sum_ext(m, |j: int| sum(k, |i: int| cell(i, j)), col);
    let g = |t: int| v[t % m] * wt[t / m] * x[t];
    lemma_sum_blocks(k, m, g);
    let row = |i: int| sum(m, |j: int| cell(i, j));
    let block = |i: int| sum(m, |j: int| g(i * m + j));
    assert forall|i: int| 0 <= i < k implies #[trigger] row(i) == block(i) by {
        assert forall|j: int| 0 <= j < m implies cell(i, j) == #[trigger] g(i * m + j) by {
            lemma_fundamental_div_mod_converse(i * m + j, m, i, j);
            let (a, b, c) = (v[j], wt[i], x[i * m + j]);
            assert(a * (b * c) == a * b * c) by (nonlinear_arith);
        }
        let r1 = |j: int| cell(i, j);
        let r2 = |j: int| g(i * m + j);
        assert forall|j: int| 0 <= j < m implies #[trigger] r1(j) == r2(j) by {
            assert(cell(i, j) == g(i * m + j));
        }
        lemma_sum_ext(m, r1, r2);
        lemma_sum_ext(m, |j: int| cell(i, j), r1);
        lemma_sum_ext(m, |j: int| g(i * m + j), r2);
    }
    lemma_sum_ext(k, row, block);
    lemma_sum_ext(k, |i: int| sum(m, |j: int| cell(i, j)), row);
    lemma_sum_ext(k, |i: int| sum(m, |j: int| g(i * m + j)), block);
    lemma_sum_ext(m, f, |i: int| v[i] * fold(x, wt, m, q)[i]);
    lemma_sum_ext(k * m, g, |t: int| v[t % m] * wt[t / m] * x[t]);
}

/// Swapping the two sides of a diagonal.
pub proof fn lemma_upper_lower(x: Seq<int>, y: Seq<int>, k: int, m: int, l: int)
    ensures
        upper(x, y, k, m, l) == lower(y, x, k, m, l),
{
    let f = |i: int| pairing(x, i, y, i + l, m);
    let g = |i: int| pairing(y, i + l, x, i, m);
    assert forall|i: int| 0 <= i < k - l implies #[trigger] f(i) == g(i) by {
        let u = |t: int| x[i * m + t] * y[(i + l) * m + t];
        let v = |t: int| y[(i + l) * m + t] * x[i * m + t];
        assert forall|t: int| 0 <= t < m implies #[trigger] u(t) == v(t) by {
            let (a, b) = (x[i * m + t], y[(i + l) * m + t]);
            assert(a * b == b * a) by (nonlinear_arith);
        }
        lemma_sum_ext(m, u, v);
    }
    lemma_sum_ext(k - l, f, g);
}

/// The inner product is symmetric.
pub proof fn lemma_dot_symmetric(a: Seq<int>, b: Seq<int>)
    requires
        a.len() == b.len(),
    ensures
        dot(a, b) == dot(b, a),
{
    let f = |i: int| a[i] * b[i];
    let g = |i: int| b[i] * a[i];
    assert forall|i: int| 0 <= i < a.len() implies #[trigger] f(i) == g(i) by {
        let (x, y) = (a[i], b[i]);
        assert(x * y == y * x) by (nonlinear_arith);
    }
    lemma_sum_ext(a.len() as int, f, g);
}

/// Padding both vectors does not change their inner product.
pub proof fn lemma_dot_pad(a: Seq<int>, b: Seq<int>, extra: int)
    requires
        a.len() == b.len(),
        extra >= 0,
    ensures
        dot(pad(a, extra), pad(b, extra)) == dot(a, b),
{
    let n = a.len() as int;
    let f = |i: int| a[i] * b[i];
    let g = |i: int| pad(a, extra)[i] * pad(b, extra)[i];
    assert forall|i: int| n <= i < n + extra implies #[trigger] g(i) == 0 by {
        assert(pad(a, extra)[i] == 0);
    }
    lemma_sum_truncate(n + extra, n, g);
    lemma_sum_ext(n, g, f);
}

/// The value that the inner product of two vectors takes when one is folded
/// with the powers `1, c, .., c^(k - 1)` and the other with the powers
/// `c^e, .., c^(e - k + 1)`: the diagonal is multiplied by `c^e`, and the
/// `l`th diagonal above or below it by `c^(e - l)` or `c^(e + l)`.
pub open spec fn folded_product(x: Seq<int>, y: Seq<int>, k: int, m: int, c: int, e: int) -> int {
    pow(c, e as nat) * dot(x, y) + sum(
        k - 1,
        |z: int| pow(c, (e - (z + 1)) as nat) * upper(x, y, k, m, z + 1),
    ) + sum(k - 1, |z: int| pow(c, (e + (z + 1)) as nat) * lower(x, y, k, m, z + 1))
}

/// The inner product of two folded vectors.
pub proof fn lemma_fold_product(x: Seq<int>, y: Seq<int>, k: int, m: int, c: int, e: int, q: int)
    requires
        q > 1,
        k >= 1,
        m >= 0,
        e >= k - 1,
        x.len() == k * m,
        y.len() == k * m,
        eqm(c * inv_mod(c, q), 1, q),
    ensures
        eqm(
            dot(fold(x, powers_of(c, k, q), m, q), fold(y, falling(c, e, k, q), m, q)),
            folded_product(x, y, k, m, c, e),
            q,
        ),
{
    let up = powers_of(c, k, q);
    let down = falling(c, e, k, q);
    let fx = fold(x, up, m, q);
    let fy = fold(y, down, m, q);
    // Entry j of the folded vectors, with exact powers for weights.
    let cx = |i: int| pow(c, i as nat);
    let cy = |i: int| pow(c, (e - i) as nat);
    assert forall|i: int| 0 <= i < k implies eqm(#[trigger] up[i], cx(i), q) by {
        lemma_md_range(cx(i), q);
    }
    assert forall|i: int| 0 <= i < k implies eqm(#[trigger] down[i], cy(i), q) by {
        let p = pow(c, e as nat) * pow(inv_mod(c, q), i as nat);
        lemma_md_range(p, q);
        lemma_pow_cancel(c, inv_mod(c, q), e, i, q);
    }
    let t = |i: int, j: int| pairing(x, i, y, j, m);
    let w = |d: int| pow(c, (e + d) as nat);
    let quad = |i: int, j: int, s: int| (cx(i) * x[i * m + s]) * (cy(j) * y[j * m + s]);
    let f = |s: int| fx[s] * fy[s];
    let g = |s: int| sum(k, |i: int| sum(k, |j: int| quad(i, j, s)));
    assert forall|s: int| 0 <= s < m implies eqm(#[trigger] f(s), g(s), q) by {
        let ux = |i: int| up[i] * x[i * m + s];
        let vx = |i: int| cx(i) * x[i * m + s];
        let uy = |i: int| down[i] * y[i * m + s];
        let vy = |i: int| cy(i) * y[i * m + s];
        assert forall|i: int| 0 <= i < k implies eqm(#[trigger] ux(i), vx(i), q) by {
            assert(eqm(up[i], cx(i), q));
            lemma_eqm_mul(up[i], cx(i), x[i * m + s], x[i * m + s], q);
        }
        assert forall|i: int| 0 <= i < k implies eqm(#[trigger] uy(i), vy(i), q) by {
            assert(eqm(down[i], cy(i), q));
            lemma_eqm_mul(down[i], cy(i), y[i * m + s], y[i * m + s], q);
        }
        lemma_eqm_sum(k, ux, vx, q);
        lemma_eqm_sum(k, uy, vy, q);
        lemma_md_range(sum(k, ux), q);
        lemma_md_range(sum(k, uy), q);
        lemma_sum_ext(k, |i: int| up[i] * x[i * m + s], ux);
        lemma_sum_ext(k, |i: int| down[i] * y[i * m + s], uy);
        assert(fx[s] == md(sum(k, ux), q));
        assert(fy[s] == md(sum(k, uy), q));
        lemma_eqm_mul(fx[s], sum(k, vx), fy[s], sum(k, vy), q);
        lemma_sum_product(k, k, vx, vy);
        let r1 = |i: int| sum(k, |j: int| vx(i) * vy(j));
        let r2 = |i: int| sum(k, |j: int| quad(i, j, s));
        assert forall|i: int| 0 <= i < k implies #[trigger] r1(i) == r2(i) by {
            lemma_sum_ext(k, |j: int| vx(i) * vy(j), |j: int| quad(i, j, s));
        }
        lemma_sum_ext(k, r1, r2);
    }
    lemma_eqm_sum(m, f, g, q);
    // Summing over s first turns the products into pairings of blocks.
    let gi = |i: int, s: int| sum(k, |j: int| quad(i, j, s));
    let gs = |s: int, i: int| gi(i, s);
    lemma_sum_swap(m, k, gs);
    let h1 = |s: int| sum(k, |i: int| gi(i, s));
    assert forall|s: int| 0 <= s < m implies #[trigger] g(s) == h1(s) by {
        lemma_sum_ext(k, |i: int| sum(k, |j: int| quad(i, j, s)), |i: int| gi(i, s));
    }
    lemma_sum_ext(m, g, h1);
    let h1b = |s: int| sum(k, |i: int| gs(s, i));
    assert forall|s: int| 0 <= s < m implies #[trigger] h1(s) == h1b(s) by {
        lemma_sum_ext(k, |i: int| gi(i, s), |i: int| gs(s, i));
    }
    lemma_sum_ext(m, h1, h1b);
    let h2 = |i: int| sum(m, |s: int| gi(i, s));
    let target = |i: int| sum(k, |j: int| w(i - j) * t(i, j));
    assert forall|i: int| 0 <= i < k implies #[trigger] h2(i) == target(i) by {
        lemma_sum_swap(m, k, |s: int, j: int| quad(i, j, s));
        let a1 = |s: int| gi(i, s);
        let a2 = |s: int| sum(k, |j: int| (|s: int, j: int| quad(i, j, s))(s, j));
        assert forall|s: int| 0 <= s < m implies #[trigger] a1(s) == a2(s) by {
            lemma_sum_ext(
                k,
                |j: int| quad(i, j, s),
                |j: int| (|s: int, j: int| quad(i, j, s))(s, j),
            );
        }
        lemma_sum_ext(m, a1, a2);
        let b1 = |j: int| sum(m, |s: int| (|s: int, j: int| quad(i, j, s))(s, j));
        let b2 = |j: int| w(i - j) * t(i, j);
        assert forall|j: int| 0 <= j < k implies #[trigger] b1(j) == b2(j) by {
            let prod = |s: int| x[i * m + s] * y[j * m + s];
            let ww = w(i - j);
            lemma_pow_adds(c, i as nat, (e - j) as nat);
            assert(cx(i) * cy(j) == ww);
            assert forall|s: int| 0 <= s < m implies quad(i, j, s) == #[trigger] prod(s) * ww by {
                let (a, b, d, h) = (cx(i), x[i * m + s], cy(j), y[j * m + s]);
                assert((a * b) * (d * h) == (b * h) * (a * d)) by (nonlinear_arith);
            }
            let z1 = |s: int| (|s: int, j: int| quad(i, j, s))(s, j);
            let z2 = |s: int| ww * prod(s);
            assert forall|s: int| 0 <= s < m implies #[trigger] z1(s) == z2(s) by {
                assert(quad(i, j, s) == prod(s) * ww);
                let (a, b) = (prod(s), ww);
                assert(a * b == b * a) by (nonlinear_arith);
            }
            lemma_sum_ext(m, z1, z2);
            lemma_sum_scale(m, ww, prod);
        }
        lemma_sum_ext(k, b1, b2);
    }
    lemma_sum_ext(k, h2, target);
    let h2b = |i: int| sum(m, |s: int| gs(s, i));
    assert forall|i: int| 0 <= i < k implies #[trigger] h2b(i) == h2(i) by {
        lemma_sum_ext(m, |s: int| gs(s, i), |s: int| gi(i, s));
    }
    lemma_sum_ext(k, h2b, h2);
    lemma_sum_diagonals(k, t, w);
    lemma_sum_ext(k, |i: int| sum(k, |j: int| w(i - j) * t(i, j)), target);
    // The main diagonal is the inner product of the whole vectors.
    let xy = |i: int| x[i] * y[i];
    lemma_sum_blocks(k, m, xy);
    let d1 = |i: int| t(i, i);
    let d2 = |i: int| sum(m, |j: int| xy(i * m + j));
    assert forall|i: int| 0 <= i < k implies #[trigger] d1(i) == d2(i) by {
        lemma_sum_ext(m, |s: int| x[i * m + s] * y[i * m + s], |j: int| xy(i * m + j));
    }
    lemma_sum_ext(k, d1, d2);
    let u1 = |z: int| w(-(z + 1)) * sum(k - (z + 1), |i: int| t(i, i + (z + 1)));
    let u2 = |z: int| pow(c, (e - (z + 1)) as nat) * upper(x, y, k, m, z + 1);
    assert forall|z: int| 0 <= z < k - 1 implies #[trigger] u1(z) == u2(z) by {
        lemma_sum_ext(
            k - (z + 1),
            |i: int| t(i, i + (z + 1)),
            |i: int| pairing(x, i, y, i + (z + 1), m),
        );
    }
    lemma_sum_ext(k - 1, u1, u2);
    let l1 = |z: int| w(z + 1) * sum(k - (z + 1), |i: int| t(i + (z + 1), i));
    let l2 = |z: int| pow(c, (e + (z + 1)) as nat) * lower(x, y, k, m, z + 1);
    assert forall|z: int| 0 <= z < k - 1 implies #[trigger] l1(z) == l2(z) by {
        lemma_sum_ext(
            k - (z + 1),
            |i: int| t(i + (z + 1), i),
            |i: int| pairing(x, i + (z + 1), y, i, m),
        );
    }
    lemma_sum_ext(k - 1, l1, l2);
}

/// The inner product of a spread-out final vector with `x`.
pub open spec fn spread(base: Seq<int>, ws: Seq<int>, n: int, k: int, r: int, x: Seq<int>) -> int {
    sum(round_len(n, k, r), |t: int| unfold(base, ws, n, k, r, t) * x[t])
}

/// One folding of `x` multiplies its inner product with the spread-out final
/// vector by `f`, where the weights of the folding are `f` times the powers
/// of the weight of the round.
pub proof fn lemma_spread_step(
    base: Seq<int>,
    ws: Seq<int>,
    n: int,
    k: int,
    r: int,
    x: Seq<int>,
    wt: Seq<int>,
    f: int,
    q: int,
)
    requires
        q > 1,
        n >= 0,
        k >= 1,
        0 <= r < ws.len(),
        x.len() == round_len(n, k, r),
        wt.len() == k,
        forall|i: int| 0 <= i < k ==> eqm(#[trigger] wt[i], f * pow(ws[r], i as nat), q),
    ensures
        eqm(
            spread(base, ws, n, k, r + 1, fold(pad_for(x, x.len() as int, k), wt, round_len(n, k, r + 1), q)),
            f * spread(base, ws, n, k, r, x),
            q,
        ),
{
    let len = x.len() as int;
    let m = round_len(n, k, r + 1);
    lemma_round_len(n, k, r);
    lemma_folded_len(len, k);
    assert(m == folded_len(len, k));
    let px = pad_for(x, len, k);
    assert(px.len() == k * m);
    let v = Seq::new(m as nat, |j: int| unfold(base, ws, n, k, r + 1, j));
    lemma_fold_dual(v, px, wt, m, q);
    let fx = fold(px, wt, m, q);
    lemma_sum_ext(m, |t: int| unfold(base, ws, n, k, r + 1, t) * fx[t], |i: int| v[i] * fx[i]);
    let g = |t: int| v[t % m] * wt[t / m] * px[t];
    let u = |t: int| unfold(base, ws, n, k, r, t) * px[t];
    let fu = |t: int| f * u(t);
    assert forall|t: int| 0 <= t < k * m implies eqm(#[trigger] g(t), fu(t), q) by {
        assert(m > 0) by (nonlinear_arith)
            requires
                0 <= t < k * m,
                k >= 1,
                m >= 0,
        ;
        let i = t / m;
        let j = t % m;
        vstd::arithmetic::div_mod::lemma_fundamental_div_mod(t, m);
        vstd::arithmetic::div_mod::lemma_mod_bound(t, m);
        assert(0 <= i < k) by (nonlinear_arith)
            requires
                t == m * i + j,
                0 <= j < m,
                0 <= t < k * m,
                m > 0,
        ;
        let p = pow(ws[r], i as nat);
        assert(eqm(wt[i], f * p, q));
        lemma_eqm_mul(v[j], v[j], wt[i], f * p, q);
        lemma_eqm_mul(v[j] * wt[i], v[j] * (f * p), px[t], px[t], q);
        let (a, b) = (v[j], px[t]);
        assert(a * (f * p) * b == f * ((a * p) * b)) by (nonlinear_arith);
    }
    lemma_eqm_sum(k * m, g, fu, q);
    lemma_sum_ext(k * m, |t: int| v[t % m] * wt[t / m] * px[t], g);
    lemma_sum_scale(k * m, f, u);
    assert forall|t: int| len <= t < k * m implies #[trigger] u(t) == 0 by {
        assert(px[t] == 0);
        let a = unfold(base, ws, n, k, r, t);
        assert(a * 0 == 0);
    }
    lemma_sum_truncate(k * m, len, u);
    lemma_sum_ext(len, u, |t: int| unfold(base, ws, n, k, r, t) * x[t]);
}

/// With no rounds left the spread-out final vector is the final vector.
pub proof fn lemma_spread_end(base: Seq<int>, ws: Seq<int>, n: int, k: int, x: Seq<int>)
    requires
        base.len() == round_len(n, k, ws.len() as int),
    ensures
        spread(base, ws, n, k, ws.len() as int, x) == dot(base, x),
{
    lemma_sum_ext(
        base.len() as int,
        |t: int| unfold(base, ws, n, k, ws.len() as int, t) * x[t],
        |i: int| base[i] * x[i],
    );
}

/// Termwise congruent coefficients give congruent inner products.
pub proof fn lemma_dot_eqm(a: Seq<int>, b: Seq<int>, x: Seq<int>, q: int)
    requires
        q > 0,
        a.len() == b.len(),
        forall|i: int| 0 <= i < a.len() ==> eqm(#[trigger] a[i], b[i], q),
    ensures
        eqm(dot(a, x), dot(b, x), q),
{
    let f = |i: int| a[i] * x[i];
    let g = |i: int| b[i] * x[i];
    assert forall|i: int| 0 <= i < a.len() implies eqm(#[trigger] f(i), g(i), q) by {
        assert(eqm(a[i], b[i], q));
        lemma_eqm_mul(a[i], b[i], x[i], x[i], q);
    }
    lemma_eqm_sum(a.len() as int, f, g, q);
}

/// A factor common to all coefficients.
pub proof fn lemma_dot_scale(a: Seq<int>, b: Seq<int>, x: Seq<int>, c: int)
    requires
        a.len() == b.len(),
        forall|i: int| 0 <= i < a.len() ==> #[trigger] a[i] == b[i] * c,
    ensures
        dot(a, x) == c * dot(b, x),
{
    let f = |i: int| a[i] * x[i];
    let g = |i: int| b[i] * x[i];
    assert forall|i: int| 0 <= i < a.len() implies #[trigger] f(i) == c * g(i) by {
        let (u, v) = (b[i], x[i]);
        assert((u * c) * v == c * (u * v)) by (nonlinear_arith);
        assert(a[i] == b[i] * c);
    }
    lemma_sum_scale(a.len() as int, c, g);
    lemma_sum_ext(a.len() as int, f, |i: int| c * g(i));
}

/// Each folding divides the length by `k` and rounds up, so that `r` of them
/// divide it by `k^r` and round up: the number of foldings that leave one
/// entry is logarithmic in the length.
pub proof fn law_round_len(n: int, k: int, r: int)
    requires
        n >= 0,
        k >= 1,
        r >= 0,
    ensures
        round_len(n, k, r) == (n + pow(k, r as nat) - 1) / pow(k, r as nat),
        1 <= n <= pow(k, r as nat) ==> round_len(n, k, r) == 1,
{
    lemma_round_len_bounds(n, k, r);
    let a = pow(k, r as nat);
    let m = round_len(n, k, r);
    assert(n + a - 1 == m * a + (n - a * (m - 1) - 1)) by (nonlinear_arith);
    assert(n - a * (m - 1) - 1 < a) by (nonlinear_arith)
        requires
            n <= a * m,
    ;
    lemma_fundamental_div_mod_converse(n + a - 1, a, m, n - a * (m - 1) - 1);
    if 1 <= n <= a {
        assert(m == 1) by (nonlinear_arith)
            requires
                a * (m - 1) < n,
                n <= a * m,
                1 <= n <= a,
        ;
    }
}

/// `r` foldings leave the least number whose product with `k^r` is not less
/// than the length.
proof fn lemma_round_len_bounds(n: int, k: int, r: int)
    requires
        n >= 0,
        k >= 1,
        r >= 0,
    ensures
        pow(k, r as nat) >= 1,
        pow(k, r as nat) * (round_len(n, k, r) - 1) < n <= pow(k, r as nat) * round_len(n, k, r),
    decreases r,
{
    if r == 0 {
        lemma_pow0(k);
    } else {
        lemma_round_len_bounds(n, k, r - 1);
        lemma_round_len(n, k, r - 1);
        lemma_pow_next(k, r - 1);
        let a = pow(k, (r - 1) as nat);
        let m = round_len(n, k, r - 1);
        let f = round_len(n, k, r);
        lemma_folded_len(m, k);
        assert(k * a >= 1) by (nonlinear_arith)
            requires
                k >= 1,
                a >= 1,
        ;
        assert(k * (f - 1) <= m - 1) by (nonlinear_arith)
            requires
                k * f < m + k,
        ;
        assert((k * a) * (f - 1) < n) by (nonlinear_arith)
            requires
                k * (f - 1) <= m - 1,
                a >= 1,
                a * (m - 1) < n,
        ;
        assert(n <= (k * a) * f) by (nonlinear_arith)
            requires
                m <= k * f,
                a >= 1,
                n <= a * m,
        ;
    }
}

} // verus!
