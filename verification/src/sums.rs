//! Finite sums over the integers.

use vstd::prelude::*;

verus! {

/// `f(0) + f(1) + .. + f(n - 1)`.
pub open spec fn sum(n: int, f: spec_fn(int) -> int) -> int
    decreases n,
{
    if n <= 0 {
        0
    } else {
        sum(n - 1, f) + f(n - 1)
    }
}

/// The inner product of two sequences, over the length of the first.
pub open spec fn dot(a: Seq<int>, b: Seq<int>) -> int {
    sum(a.len() as int, |i: int| a[i] * b[i])
}

/// The entry at position `t` of `s` followed by zeros.
pub open spec fn at(s: Seq<int>, t: int) -> int {
    if 0 <= t < s.len() {
        s[t]
    } else {
        0
    }
}

pub proof fn lemma_sum_ext(n: int, f: spec_fn(int) -> int, g: spec_fn(int) -> int)
    requires
        forall|i: int| 0 <= i < n ==> #[trigger] f(i) == g(i),
    ensures
        sum(n, f) == sum(n, g),
    decreases n,
{
    if n > 0 {
        lemma_sum_ext(n - 1, f, g);
        assert(f(n - 1) == g(n - 1));
    }
}

pub proof fn lemma_sum_add(n: int, f: spec_fn(int) -> int, g: spec_fn(int) -> int)
    ensures
        sum(n, |i: int| f(i) + g(i)) == sum(n, f) + sum(n, g),
    decreases n,
{
    if n > 0 {
        lemma_sum_add(n - 1, f, g);
    }
}

pub proof fn lemma_sum_scale(n: int, c: int, f: spec_fn(int) -> int)
    ensures
        sum(n, |i: int| c * f(i)) == c * sum(n, f),
    decreases n,
{
    if n > 0 {
        lemma_sum_scale(n - 1, c, f);
        let s = sum(n - 1, f);
        let x = f(n - 1);
        assert(c * (s + x) == c * s + c * x) by (nonlinear_arith);
    }
}

pub proof fn lemma_sum_zero(n: int, f: spec_fn(int) -> int)
    requires
        forall|i: int| 0 <= i < n ==> #[trigger] f(i) == 0,
    ensures
        sum(n, f) == 0,
    decreases n,
{
    if n > 0 {
        lemma_sum_zero(n - 1, f);
    }
}

pub proof fn lemma_sum_split(a: int, b: int, f: spec_fn(int) -> int)
    requires
        0 <= a,
        0 <= b,
    ensures
        sum(a + b, f) == sum(a, f) + sum(b, |i: int| f(a + i)),
    decreases b,
{
    if b > 0 {
        lemma_sum_split(a, b - 1, f);
    }
}

/// Terms that vanish from `m` on do not count.
pub proof fn lemma_sum_truncate(n: int, m: int, f: spec_fn(int) -> int)
    requires
        0 <= m <= n,
        forall|i: int| m <= i < n ==> #[trigger] f(i) == 0,
    ensures
        sum(n, f) == sum(m, f),
    decreases n - m,
{
    if n > m {
        lemma_sum_truncate(n - 1, m, f);
    }
}

pub proof fn lemma_sum_blocks(k: int, m: int, f: spec_fn(int) -> int)
    requires
        0 <= k,
        0 <= m,
    ensures
        sum(k * m, f) == sum(k, |i: int| sum(m, |j: int| f(i * m + j))),
    decreases k,
{
    let blocks = |i: int| sum(m, |j: int| f(i * m + j));
    if k > 0 {
        lemma_sum_blocks(k - 1, m, f);
        assert(k * m == (k - 1) * m + m) by (nonlinear_arith);
        assert((k - 1) * m >= 0) by (nonlinear_arith)
            requires
                k >= 1,
                m >= 0,
        ;
        lemma_sum_split((k - 1) * m, m, f);
        lemma_sum_ext(m, |i: int| f((k - 1) * m + i), |j: int| f((k - 1) * m + j));
        assert(sum(k, blocks) == sum(k - 1, blocks) + blocks(k - 1));
    } else {
        assert(k * m == 0) by (nonlinear_arith)
            requires
                k == 0,
        ;
    }
}

pub proof fn lemma_sum_swap(n: int, m: int, f: spec_fn(int, int) -> int)
    ensures
        sum(n, |i: int| sum(m, |j: int| f(i, j))) == sum(m, |j: int| sum(n, |i: int| f(i, j))),
    decreases n,
{
    let rows = |i: int| sum(m, |j: int| f(i, j));
    let cols = |j: int| sum(n, |i: int| f(i, j));
    if n <= 0 {
        lemma_sum_zero(m, cols);
    } else {
        lemma_sum_swap(n - 1, m, f);
        let cols1 = |j: int| sum(n - 1, |i: int| f(i, j));
        let last = |j: int| f(n - 1, j);
        lemma_sum_add(m, cols1, last);
        lemma_sum_ext(m, cols, |j: int| cols1(j) + last(j));
        assert(sum(n, rows) == sum(n - 1, rows) + rows(n - 1));
        assert(rows(n - 1) == sum(m, last));
    }
}

pub proof fn lemma_sum_reverse(n: int, f: spec_fn(int) -> int)
    ensures
        sum(n, |i: int| f(n - 1 - i)) == sum(n, f),
    decreases n,
{
    if n > 0 {
        let r = |i: int| f(n - 1 - i);
        let f1 = |i: int| f(i + 1);
        lemma_sum_reverse(n - 1, f1);
        lemma_sum_ext(n - 1, r, |i: int| f1(n - 1 - 1 - i));
        lemma_sum_split(1, n - 1, f);
        lemma_sum_ext(n - 1, |i: int| f(1 + i), f1);
        assert(sum(1, f) == sum(0, f) + f(0));
        assert(sum(n, r) == sum(n - 1, r) + r(n - 1));
    }
}

/// The product of two sums is the sum of all products.
pub proof fn lemma_sum_product(n: int, m: int, f: spec_fn(int) -> int, g: spec_fn(int) -> int)
    ensures
        sum(n, f) * sum(m, g) == sum(n, |i: int| sum(m, |j: int| f(i) * g(j))),
    decreases n,
{
    let rows = |i: int| sum(m, |j: int| f(i) * g(j));
    if n <= 0 {
    } else {
        lemma_sum_product(n - 1, m, f, g);
        let s = sum(n - 1, f);
        let x = f(n - 1);
        let y = sum(m, g);
        assert((s + x) * y == s * y + x * y) by (nonlinear_arith);
        lemma_sum_scale(m, x, g);
        lemma_sum_ext(m, |j: int| f(n - 1) * g(j), |j: int| x * g(j));
        assert(sum(n, rows) == sum(n - 1, rows) + rows(n - 1));
    }
}

/// A square array summed along its diagonals.
pub proof fn lemma_sum_diagonals(k: int, t: spec_fn(int, int) -> int, w: spec_fn(int) -> int)
    requires
        k >= 1,
    ensures
        sum(k, |i: int| sum(k, |j: int| w(i - j) * t(i, j)))
            == w(0) * sum(k, |i: int| t(i, i))
            + sum(k - 1, |x: int| w(-(x + 1)) * sum(k - (x + 1), |i: int| t(i, i + (x + 1))))
            + sum(k - 1, |x: int| w(x + 1) * sum(k - (x + 1), |i: int| t(i + (x + 1), i))),
    decreases k,
{
    let diag = |i: int| t(i, i);
    let ups = |x: int| w(-(x + 1)) * sum(k - (x + 1), |i: int| t(i, i + (x + 1)));
    let downs = |x: int| w(x + 1) * sum(k - (x + 1), |i: int| t(i + (x + 1), i));
    if k == 1 {
        let row0 = |i: int| sum(k, |j: int| w(i - j) * t(i, j));
        let cell = |j: int| w(0 - j) * t(0, j);
        assert(sum(1, row0) == sum(0, row0) + row0(0));
        lemma_sum_ext(1, |j: int| w(0 - j) * t(0, j), cell);
        assert(sum(1, cell) == sum(0, cell) + cell(0));
        assert(row0(0) == sum(1, cell));
        assert(sum(1, diag) == sum(0, diag) + diag(0));
        assert(sum(1, diag) == t(0, 0));
        assert(sum(0, ups) == 0);
        assert(sum(0, downs) == 0);
    } else {
        let p = k - 1;
        lemma_sum_diagonals(p, t, w);
        let ups1 = |x: int| w(-(x + 1)) * sum(p - (x + 1), |i: int| t(i, i + (x + 1)));
        let downs1 = |x: int| w(x + 1) * sum(p - (x + 1), |i: int| t(i + (x + 1), i));
        // The full square of size k is that of size p, the last row and the last column.
        let rowp = |i: int| sum(p, |j: int| w(i - j) * t(i, j));
        let rowk = |i: int| sum(k, |j: int| w(i - j) * t(i, j));
        let last_col = |i: int| w(i - p) * t(i, p);
        let last_row = |j: int| w(p - j) * t(p, j);
        assert forall|i: int| 0 <= i < p implies #[trigger] rowk(i) == rowp(i) + last_col(i) by {
            let cell = |j: int| w(i - j) * t(i, j);
            assert(sum(k, cell) == sum(p, cell) + cell(p));
        }
        lemma_sum_add(p, rowp, last_col);
        lemma_sum_ext(p, rowk, |i: int| rowp(i) + last_col(i));
        assert(sum(k, rowk) == sum(p, rowk) + rowk(p));
        assert(rowk(p) == sum(p, last_row) + w(0) * t(p, p)) by {
            let cell = |j: int| w(p - j) * t(p, j);
            assert(sum(k, cell) == sum(p, cell) + cell(p));
            lemma_sum_ext(p, cell, last_row);
            lemma_sum_ext(k, |j: int| w(p - j) * t(p, j), cell);
        }
        // The diagonals grow by one entry each.
        assert(sum(k, diag) == sum(p, diag) + diag(p));
        let d1 = sum(p, diag);
        let dx = t(p, p);
        assert(w(0) * (d1 + dx) == w(0) * d1 + w(0) * dx) by (nonlinear_arith);
        let col_rev = |x: int| last_col(p - 1 - x);
        let row_rev = |x: int| last_row(p - 1 - x);
        lemma_sum_reverse(p, last_col);
        lemma_sum_reverse(p, last_row);
        assert forall|x: int| 0 <= x < p - 1 implies #[trigger] ups(x) == ups1(x) + col_rev(x) by {
            let cell = |i: int| t(i, i + (x + 1));
            let c0 = sum(p - (x + 1), cell);
            let cx = cell(p - (x + 1));
            assert(sum(k - (x + 1), cell) == c0 + cx);
            let ww = w(-(x + 1));
            assert(ww * (c0 + cx) == ww * c0 + ww * cx) by (nonlinear_arith);
            assert(p - 1 - x - p == -(x + 1));
        }
        assert forall|x: int| 0 <= x < p - 1 implies #[trigger] downs(x) == downs1(x) + row_rev(x) by {
            let cell = |i: int| t(i + (x + 1), i);
            let c0 = sum(p - (x + 1), cell);
            let cx = cell(p - (x + 1));
            assert(sum(k - (x + 1), cell) == c0 + cx);
            let ww = w(x + 1);
            assert(ww * (c0 + cx) == ww * c0 + ww * cx) by (nonlinear_arith);
            assert(p - (p - 1 - x) == x + 1);
        }
        lemma_sum_add(p - 1, ups1, col_rev);
        lemma_sum_ext(p - 1, ups, |x: int| ups1(x) + col_rev(x));
        lemma_sum_add(p - 1, downs1, row_rev);
        lemma_sum_ext(p - 1, downs, |x: int| downs1(x) + row_rev(x));
        assert(sum(p, ups) == sum(p - 1, ups) + ups(p - 1));
        assert(sum(p, downs) == sum(p - 1, downs) + downs(p - 1));
        assert(ups(p - 1) == col_rev(p - 1)) by {
            let cell = |i: int| t(i, i + (p - 1 + 1));
            assert(sum(1, cell) == sum(0, cell) + cell(0));
        }
        assert(downs(p - 1) == row_rev(p - 1)) by {
            let cell = |i: int| t(i + (p - 1 + 1), i);
            assert(sum(1, cell) == sum(0, cell) + cell(0));
        }
        assert(sum(p, col_rev) == sum(p - 1, col_rev) + col_rev(p - 1));
        assert(sum(p, row_rev) == sum(p - 1, row_rev) + row_rev(p - 1));
        lemma_sum_ext(p, |x: int| last_col(p - 1 - x), col_rev);
        lemma_sum_ext(p, |x: int| last_row(p - 1 - x), row_rev);
    }
}

/// The inner product of nothing is zero, and every further pair adds its
/// product.
pub proof fn law_dot(a: Seq<int>, b: Seq<int>, x: int, y: int)
    requires
        a.len() == b.len(),
    ensures
        dot(Seq::empty(), b) == 0,
        dot(a.push(x), b.push(y)) == dot(a, b) + x * y,
{
    let n = a.len() as int;
    let f = |i: int| a.push(x)[i] * b.push(y)[i];
    assert(sum(n + 1, f) == sum(n, f) + f(n));
    lemma_sum_ext(n, f, |i: int| a[i] * b[i]);
}

} // verus!
