//! What the verifier of a folding argument computes from the challenges: the
//! weight with which each original entry went into the folded vectors.

use vstd::arithmetic::power::pow;
use vstd::prelude::*;
use crate::folding::{folded_len, lemma_folded_len, round_len};
use crate::group::{Field, values};
use crate::modular::{group_mod, lemma_md_small, md};
use crate::util::{exp_vec, powers_of, scalar_exp_vartime};

verus! {

broadcast use group_mod;

/// The product of the `e`th powers of the challenges from round `r` on.
pub open spec fn suffix_product(cs: Seq<int>, e: int, r: int) -> int
    decreases cs.len() - r,
{
    if r >= cs.len() {
        1
    } else {
        pow(cs[r], e as nat) * suffix_product(cs, e, r + 1)
    }
}

/// Entry `t` of the vector of round `r` that is spread out from the final
/// vector `base`: block `i` of each round is the vector of the next round,
/// times the `i`th power of the weight of the round.
pub open spec fn unfold(base: Seq<int>, ws: Seq<int>, n: int, k: int, r: int, t: int) -> int
    decreases ws.len() - r,
{
    if r >= ws.len() {
        base[t]
    } else {
        let m = round_len(n, k, r + 1);
        unfold(base, ws, n, k, r + 1, t % m) * pow(ws[r], (t / m) as nat)
    }
}

/// The weights of all `n` entries.
pub open spec fn unfolded(base: Seq<int>, ws: Seq<int>, n: int, k: int, q: int) -> Seq<int> {
    Seq::new(n as nat, |t: int| md(unfold(base, ws, n, k, 0, t), q))
}

/// `base` raised to the power `exp`.
pub(crate) fn scalar_pow<F: Field>(base: F, exp: u64) -> (r: F)
    ensures
        r.value() == md(pow(base.value(), exp as nat), F::modulus()),
{
    scalar_exp_vartime(&base, exp)
}

/// The length of the vector at the start and after each of `d` rounds.
pub(crate) fn reconstruct_round_lengths(n: usize, k: usize, d: usize) -> (r: Vec<usize>)
    requires
        d > 0 ==> k >= 1,
        n + k <= usize::MAX,
    ensures
        r@.len() == d + 1,
        forall|i: int| 0 <= i <= d ==> #[trigger] r@[i] == round_len(n as int, k as int, i),
{
    let mut lengths: Vec<usize> = Vec::new();
    lengths.push(n);
    let mut cur: usize = n;
    let mut i: usize = 0;
    while i < d
        invariant
            i <= d,
            d > 0 ==> k >= 1,
            n + k <= usize::MAX,
            cur <= n,
            cur == round_len(n as int, k as int, i as int),
            lengths@.len() == i + 1,
            forall|x: int| 0 <= x <= i ==> #[trigger] lengths@[x] == round_len(n as int, k as int, x),
        decreases d - i,
    {
        let rem: usize = cur % k;
        let pad: usize = if rem == 0 { 0 } else { k - rem };
        let padded: usize = cur + pad;
        proof {
            lemma_folded_len(cur as int, k as int);
            vstd::arithmetic::div_mod::lemma_div_multiples_vanish(folded_len(cur as int, k as int), k as int);
        }
        cur = padded / k;
        lengths.push(cur);
        i += 1;
    }
    lengths
}

/// For each round the product of the `e`th powers of the challenges of all
/// later rounds, and the product over all rounds.
pub(crate) fn suffix_products<F: Field>(cs: &Vec<F>, e: u64) -> (r: (Vec<F>, F))
    ensures
        r.0@.len() == cs@.len(),
        forall|i: int|
            0 <= i < cs@.len() ==> (#[trigger] r.0@[i]).value() == md(
                suffix_product(values(cs@), e as int, i + 1),
                F::modulus(),
            ),
        r.1.value() == md(suffix_product(values(cs@), e as int, 0), F::modulus()),
{
    let ghost q = F::modulus();
    let ghost vs = values(cs@);
    let d: usize = cs.len();
    let mut products: Vec<F> = Vec::new();
    let mut i: usize = 0;
    while i < d
        invariant
            i <= d,
            products@.len() == i,
        decreases d - i,
    {
        products.push(F::one());
        i += 1;
    }
    let mut so_far = F::one();
    proof {
        F::modulus_range();
        lemma_md_small(1, q);
    }
    let mut r: usize = d;
    while r > 0
        invariant
            r <= d,
            d == cs@.len(),
            vs == values(cs@),
            q == F::modulus(),
            q > 1,
            products@.len() == d,
            so_far.value() == md(suffix_product(vs, e as int, r as int), q),
            forall|i: int|
                r <= i < d ==> (#[trigger] products@[i]).value() == md(suffix_product(vs, e as int, i + 1), q),
        decreases r,
    {
        r -= 1;
        let c_e = scalar_pow(cs[r], e);
        products.set(r, so_far);
        so_far = so_far.times(c_e);
        proof {
            let x = suffix_product(vs, e as int, r + 1);
            let y = pow(vs[r as int], e as nat);
            assert(x * y == y * x) by (nonlinear_arith);
        }
    }
    (products, so_far)
}

/// Spreads the final vector `base` out over the `n` entries that were folded
/// into it, where `ws` holds the weight of each round.
pub(crate) fn unfold_vec<F: Field>(base: &Vec<F>, ws: &Vec<F>, lengths: &Vec<usize>, k: usize) -> (r: Vec<F>)
    requires
        k >= 1,
        lengths@.len() == ws@.len() + 1,
        forall|i: int|
            0 <= i < lengths@.len() ==> #[trigger] lengths@[i] == round_len(lengths@[0] as int, k as int, i),
        base@.len() == lengths@.last(),
    ensures
        values(r@) == unfolded(values(base@), values(ws@), lengths@[0] as int, k as int, F::modulus()),
{
    let ghost q = F::modulus();
    let ghost n = lengths@[0] as int;
    let ghost (bv, wv) = (values(base@), values(ws@));
    let d: usize = ws.len();
    let mut s: Vec<F> = crate::folding::copy_slice(base);
    proof {
        F::modulus_range();
        assert forall|t: int| 0 <= t < s@.len() implies (#[trigger] s@[t]).value() == md(
            unfold(bv, wv, n, k as int, d as int, t),
            q,
        ) by {
            s@[t].value_range();
        }
    }
    let mut r: usize = d;
    while r > 0
        invariant
            r <= d,
            d == ws@.len(),
            k >= 1,
            q == F::modulus(),
            q > 1,
            bv == values(base@),
            wv == values(ws@),
            n == lengths@[0],
            lengths@.len() == d + 1,
            forall|i: int| 0 <= i <= d ==> #[trigger] lengths@[i] == round_len(n, k as int, i),
            s@.len() == round_len(n, k as int, r as int),
            forall|t: int|
                0 <= t < s@.len() ==> (#[trigger] s@[t]).value() == md(unfold(bv, wv, n, k as int, r as int, t), q),
        decreases r,
    {
        r -= 1;
        let w = ws[r];
        let len: usize = lengths[r];
        let m: usize = s.len();
        proof {
            assert(lengths@[r as int] == round_len(n, k as int, r as int));
            lemma_folded_len(len as int, k as int);
        }
        let block = exp_vec(w, k);
        assert(values(block@).len() == k);
        let mut next: Vec<F> = Vec::new();
        let mut b: usize = 0;
        let mut j: usize = 0;
        // The product of block `b` and entry `j` comes at position `b * m + j`;
        // what lies beyond the length of the round is left out.
        while next.len() < len
            invariant
                k >= 1,
                r < d,
                d == ws@.len(),
                q == F::modulus(),
                q > 1,
                bv == values(base@),
                wv == values(ws@),
                w.value() == wv[r as int],
                m == s@.len(),
                m == round_len(n, k as int, r + 1),
                len > 0 ==> m > 0,
                len <= k * m,
                block@.len() == k,
                values(block@) == powers_of(w.value(), k as int, q),
                next@.len() <= len,
                next@.len() == b * m + j,
                b <= k,
                j <= m,
                m > 0 ==> j < m,
                forall|t: int|
                    0 <= t < s@.len() ==> (#[trigger] s@[t]).value() == md(
                        unfold(bv, wv, n, k as int, r + 1, t),
                        q,
                    ),
                forall|t: int|
                    0 <= t < next@.len() ==> (#[trigger] next@[t]).value() == md(
                        unfold(bv, wv, n, k as int, r as int, t),
                        q,
                    ),
            decreases len - next@.len(),
        {
            proof {
                assert(b < k) by (nonlinear_arith)
                    requires
                        b * m + j < k * m,
                        b <= k,
                        j >= 0,
                ;
                let t = b * m + j;
                vstd::arithmetic::div_mod::lemma_fundamental_div_mod_converse(t, m as int, b as int, j as int);
                assert(block@[b as int].value() == values(block@)[b as int]);
            }
            next.push(s[j].times(block[b]));
            proof {
                assert((b + 1) * m == b * m + m) by (nonlinear_arith);
            }
            j += 1;
            if j == m {
                j = 0;
                b += 1;
            }
        }
        s = next;
    }
    assert(values(s@) =~= unfolded(bv, wv, n, k as int, q));
    s
}

/// Multiplies every entry by `x`.
pub(crate) fn scale_vec<F: Field>(v: &Vec<F>, x: F) -> (r: Vec<F>)
    ensures
        r@.len() == v@.len(),
        forall|i: int| 0 <= i < v@.len() ==> (#[trigger] r@[i]).value() == md(v@[i].value() * x.value(), F::modulus()),
{
    let mut out: Vec<F> = Vec::new();
    let mut i: usize = 0;
    while i < v.len()
        invariant
            i <= v@.len(),
            out@.len() == i,
            forall|j: int|
                0 <= j < i ==> (#[trigger] out@[j]).value() == md(v@[j].value() * x.value(), F::modulus()),
        decreases v@.len() - i,
    {
        proof {
            F::modulus_range();
            v@[i as int].value_range();
            x.value_range();
        }
        out.push(v[i].times(x));
        i += 1;
    }
    out
}

} // verus!
