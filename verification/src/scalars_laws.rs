//! What the coefficients that a verifier computes for a folding argument stand
//! for: the final vectors under the folded bases.

use vstd::arithmetic::power::pow;
use vstd::prelude::*;
use crate::ecp::{at_least, prove_ecp};
use crate::folding::{falling, fold, folded_len, lemma_folded_len, lemma_round_len, pad_for, round_len};
use crate::folding_laws::{
    law_round_len, lemma_dot_eqm, lemma_dot_scale, lemma_spread_end, lemma_spread_step, spread,
};
use crate::group::{Field, Group, values};
use crate::ipa::{inverses, prove_ipa};
use crate::ipa_laws::invertible;
use crate::modular::{
    eqm, inv_mod, lemma_eqm_mul, lemma_eqm_sum, lemma_inverse_product, lemma_md_range, lemma_pow_cancel, md,
};
use crate::sums::{dot, lemma_sum_ext, sum};
use crate::transcript::Log;
use crate::unfolding::{suffix_product, unfold};
use crate::util::powers_of;

verus! {

/// An entry of a vector that is followed by zeros.
pub open spec fn entry_or_zero(x: Seq<int>, i: int) -> int {
    if i < x.len() {
        x[i]
    } else {
        0
    }
}

/// The `k` blocks of a vector, the last of them filled up with zeros, added up
/// with the weights `c^e, c^(e - 1), ..`.
pub open spec fn fold_falling(x: Seq<int>, c: int, e: int, k: int, q: int) -> Seq<int> {
    let m = (x.len() as int + k - 1) / k;
    Seq::new(
        m as nat,
        |j: int| md(sum(k, |i: int| pow(c, (e - i) as nat) * entry_or_zero(x, i * m + j)), q),
    )
}

/// The `k` blocks of a vector, the last of them filled up with zeros, added up
/// with the weights `1, c, c^2, ..`.
pub open spec fn fold_rising(x: Seq<int>, c: int, k: int, q: int) -> Seq<int> {
    let m = (x.len() as int + k - 1) / k;
    Seq::new(
        m as nat,
        |j: int| md(sum(k, |i: int| pow(c, i as nat) * entry_or_zero(x, i * m + j)), q),
    )
}

/// The bases after `r` rounds with falling weights.
pub open spec fn bases_falling(x: Seq<int>, cs: Seq<int>, e: int, k: int, q: int, r: int) -> Seq<int>
    decreases r,
{
    if r <= 0 {
        x
    } else {
        fold_falling(bases_falling(x, cs, e, k, q, r - 1), cs[r - 1], e, k, q)
    }
}

/// The bases after `r` rounds with rising weights.
pub open spec fn bases_rising(x: Seq<int>, cs: Seq<int>, k: int, q: int, r: int) -> Seq<int>
    decreases r,
{
    if r <= 0 {
        x
    } else {
        fold_rising(bases_rising(x, cs, k, q, r - 1), cs[r - 1], k, q)
    }
}

/// The product of the `e`th powers of the challenges from number `r` on.
pub open spec fn power_product(cs: Seq<int>, e: int, r: int) -> int
    decreases cs.len() - r,
{
    if r >= cs.len() {
        1
    } else {
        pow(cs[r], e as nat) * power_product(cs, e, r + 1)
    }
}

proof fn lemma_power_product(cs: Seq<int>, e: int, r: int)
    ensures
        power_product(cs, e, r) == suffix_product(cs, e, r),
    decreases cs.len() - r,
{
    if r < cs.len() {
        lemma_power_product(cs, e, r + 1);
    }
}

proof fn lemma_fold_entries(x: Seq<int>, w: Seq<int>, v: Seq<int>, k: int, q: int)
    requires
        q > 1,
        k >= 1,
        w.len() == k,
        v.len() == k,
        forall|i: int| 0 <= i < k ==> eqm(#[trigger] w[i], v[i], q),
    ensures
        ({
            let m = (x.len() as int + k - 1) / k;
            &&& m == folded_len(x.len() as int, k)
            &&& fold(pad_for(x, x.len() as int, k), w, m, q) == Seq::new(
                m as nat,
                |j: int| md(sum(k, |i: int| v[i] * entry_or_zero(x, i * m + j)), q),
            )
        }),
{
    let n = x.len() as int;
    let m = folded_len(n, k);
    lemma_folded_len(n, k);
    let s = pad_for(x, n, k);
    assert(s.len() == k * m);
    let l = fold(s, w, m, q);
    let t = Seq::new(m as nat, |j: int| md(sum(k, |i: int| v[i] * entry_or_zero(x, i * m + j)), q));
    assert forall|j: int| 0 <= j < m implies l[j] == t[j] by {
        let f = |i: int| w[i] * s[i * m + j];
        let g = |i: int| v[i] * entry_or_zero(x, i * m + j);
        assert forall|i: int| 0 <= i < k implies eqm(#[trigger] f(i), g(i), q) by {
            assert(0 <= i * m + j < k * m) by (nonlinear_arith)
                requires
                    0 <= i < k,
                    0 <= j < m,
            ;
            assert(s[i * m + j] == entry_or_zero(x, i * m + j));
            assert(eqm(w[i], v[i], q));
            lemma_eqm_mul(w[i], v[i], s[i * m + j], s[i * m + j], q);
        }
        lemma_eqm_sum(k, f, g, q);
        lemma_sum_ext(k, |i: int| w[i] * s[i * m + j], f);
        lemma_sum_ext(k, |i: int| v[i] * entry_or_zero(x, i * m + j), g);
    }
    assert(l =~= t);
}

/// Folding with the weights that a prover computes.
proof fn lemma_fold_falling(x: Seq<int>, c: int, e: int, k: int, q: int)
    requires
        q > 1,
        k >= 1,
        e >= k - 1,
        invertible(c, q),
    ensures
        fold(pad_for(x, x.len() as int, k), falling(c, e, k, q), folded_len(x.len() as int, k), q) == fold_falling(
            x,
            c,
            e,
            k,
            q,
        ),
{
    let w = falling(c, e, k, q);
    let v = Seq::new(k as nat, |i: int| pow(c, (e - i) as nat));
    let a = inv_mod(c, q);
    lemma_inverse_product(c, q);
    assert forall|i: int| 0 <= i < k implies eqm(#[trigger] w[i], v[i], q) by {
        lemma_md_range(pow(c, e as nat) * pow(a, i as nat), q);
        lemma_pow_cancel(c, a, e, i, q);
    }
    lemma_fold_entries(x, w, v, k, q);
    let m = folded_len(x.len() as int, k);
    let (s, t) = (
        Seq::new(m as nat, |j: int| md(sum(k, |i: int| v[i] * entry_or_zero(x, i * m + j)), q)),
        fold_falling(x, c, e, k, q),
    );
    assert forall|j: int| 0 <= j < m implies s[j] == t[j] by {
        lemma_sum_ext(
            k,
            |i: int| v[i] * entry_or_zero(x, i * m + j),
            |i: int| pow(c, (e - i) as nat) * entry_or_zero(x, i * m + j),
        );
    }
    assert(s =~= t);
}

proof fn lemma_fold_rising(x: Seq<int>, c: int, k: int, q: int)
    requires
        q > 1,
        k >= 1,
    ensures
        fold(pad_for(x, x.len() as int, k), powers_of(c, k, q), folded_len(x.len() as int, k), q) == fold_rising(
            x,
            c,
            k,
            q,
        ),
{
    let w = powers_of(c, k, q);
    let v = Seq::new(k as nat, |i: int| pow(c, i as nat));
    assert forall|i: int| 0 <= i < k implies eqm(#[trigger] w[i], v[i], q) by {
        lemma_md_range(pow(c, i as nat), q);
    }
    lemma_fold_entries(x, w, v, k, q);
    let m = folded_len(x.len() as int, k);
    let (s, t) = (
        Seq::new(m as nat, |j: int| md(sum(k, |i: int| v[i] * entry_or_zero(x, i * m + j)), q)),
        fold_rising(x, c, k, q),
    );
    assert forall|j: int| 0 <= j < m implies s[j] == t[j] by {
        lemma_sum_ext(
            k,
            |i: int| v[i] * entry_or_zero(x, i * m + j),
            |i: int| pow(c, i as nat) * entry_or_zero(x, i * m + j),
        );
    }
    assert(s =~= t);
}

proof fn lemma_falling_len(x: Seq<int>, cs: Seq<int>, e: int, k: int, q: int, r: int)
    requires
        k >= 1,
        r >= 0,
    ensures
        bases_falling(x, cs, e, k, q, r).len() == round_len(x.len() as int, k, r),
    decreases r,
{
    if r > 0 {
        lemma_falling_len(x, cs, e, k, q, r - 1);
        lemma_round_len(x.len() as int, k, r - 1);
        lemma_folded_len(round_len(x.len() as int, k, r - 1), k);
    }
}

proof fn lemma_rising_len(x: Seq<int>, cs: Seq<int>, k: int, q: int, r: int)
    requires
        k >= 1,
        r >= 0,
    ensures
        bases_rising(x, cs, k, q, r).len() == round_len(x.len() as int, k, r),
    decreases r,
{
    if r > 0 {
        lemma_rising_len(x, cs, k, q, r - 1);
        lemma_round_len(x.len() as int, k, r - 1);
        lemma_folded_len(round_len(x.len() as int, k, r - 1), k);
    }
}

/// The spread-out final vector under the bases is the final vector under the
/// folded bases.
proof fn lemma_spread_falling(base: Seq<int>, x: Seq<int>, cs: Seq<int>, e: int, k: int, q: int, r: int)
    requires
        q > 1,
        k >= 1,
        e >= k - 1,
        0 <= r <= cs.len(),
        forall|i: int| 0 <= i < cs.len() ==> invertible(#[trigger] cs[i], q),
    ensures
        eqm(
            suffix_product(cs, e, r) * spread(
                base,
                inverses(cs, q),
                x.len() as int,
                k,
                r,
                bases_falling(x, cs, e, k, q, r),
            ),
            suffix_product(cs, e, 0) * spread(base, inverses(cs, q), x.len() as int, k, 0, x),
            q,
        ),
    decreases r,
{
    let n = x.len() as int;
    if r > 0 {
        lemma_spread_falling(base, x, cs, e, k, q, r - 1);
        let prev = bases_falling(x, cs, e, k, q, r - 1);
        lemma_falling_len(x, cs, e, k, q, r - 1);
        let c = cs[r - 1];
        assert(invertible(c, q));
        let top = pow(c, e as nat);
        let down = falling(c, e, k, q);
        assert forall|i: int| 0 <= i < k implies eqm(
            #[trigger] down[i],
            top * pow(inverses(cs, q)[r - 1], i as nat),
            q,
        ) by {
            lemma_md_range(top * pow(inv_mod(c, q), i as nat), q);
        }
        lemma_spread_step(base, inverses(cs, q), n, k, r - 1, prev, down, top, q);
        lemma_fold_falling(prev, c, e, k, q);
        assert(round_len(n, k, r) == folded_len(prev.len() as int, k));
        let y = suffix_product(cs, e, r);
        let g1 = spread(base, inverses(cs, q), n, k, r - 1, prev);
        let g2 = spread(base, inverses(cs, q), n, k, r, bases_falling(x, cs, e, k, q, r));
        lemma_eqm_mul(y, y, g2, top * g1, q);
        assert(y * (top * g1) == (top * y) * g1) by (nonlinear_arith);
    }
}

proof fn lemma_spread_rising(base: Seq<int>, x: Seq<int>, cs: Seq<int>, k: int, q: int, r: int)
    requires
        q > 1,
        k >= 1,
        0 <= r <= cs.len(),
    ensures
        eqm(
            spread(base, cs, x.len() as int, k, r, bases_rising(x, cs, k, q, r)),
            spread(base, cs, x.len() as int, k, 0, x),
            q,
        ),
    decreases r,
{
    let n = x.len() as int;
    if r > 0 {
        lemma_spread_rising(base, x, cs, k, q, r - 1);
        let prev = bases_rising(x, cs, k, q, r - 1);
        lemma_rising_len(x, cs, k, q, r - 1);
        let c = cs[r - 1];
        let up = powers_of(c, k, q);
        assert forall|i: int| 0 <= i < k implies eqm(#[trigger] up[i], 1 * pow(cs[r - 1], i as nat), q) by {
            lemma_md_range(pow(c, i as nat), q);
        }
        lemma_spread_step(base, cs, n, k, r - 1, prev, up, 1, q);
        lemma_fold_rising(prev, c, k, q);
        assert(round_len(n, k, r) == folded_len(prev.len() as int, k));
    }
}

/// Coefficients that spread out a final vector, times the product of powers of
/// the challenges.
proof fn lemma_falling_side(s: Seq<int>, base: Seq<int>, x: Seq<int>, cs: Seq<int>, e: int, k: int, q: int)
    requires
        q > 1,
        k >= 1,
        e >= k - 1,
        base.len() == round_len(x.len() as int, k, cs.len() as int),
        s == Seq::new(
            x.len(),
            |t: int| md(unfold(base, inverses(cs, q), x.len() as int, k, 0, t) * suffix_product(cs, e, 0), q),
        ),
        forall|i: int| 0 <= i < cs.len() ==> invertible(#[trigger] cs[i], q),
    ensures
        eqm(dot(s, x), dot(base, bases_falling(x, cs, e, k, q, cs.len() as int)), q),
{
    let n = x.len() as int;
    let d = cs.len() as int;
    let ws = inverses(cs, q);
    let prod = suffix_product(cs, e, 0);
    let gs = Seq::new(x.len(), |t: int| unfold(base, ws, n, k, 0, t) * prod);
    let us = Seq::new(x.len(), |t: int| unfold(base, ws, n, k, 0, t));
    assert forall|t: int| 0 <= t < n implies eqm(#[trigger] s[t], gs[t], q) by {
        lemma_md_range(gs[t], q);
    }
    lemma_dot_eqm(s, gs, x, q);
    lemma_dot_scale(gs, us, x, prod);
    lemma_sum_ext(n, |t: int| unfold(base, ws, n, k, 0, t) * x[t], |i: int| us[i] * x[i]);
    lemma_spread_falling(base, x, cs, e, k, q, d);
    let end = bases_falling(x, cs, e, k, q, d);
    lemma_spread_end(base, ws, n, k, end);
    assert(suffix_product(cs, e, d) == 1);
    let v = dot(base, end);
    assert(1 * v == v);
}

proof fn lemma_rising_side(s: Seq<int>, base: Seq<int>, x: Seq<int>, cs: Seq<int>, k: int, q: int)
    requires
        q > 1,
        k >= 1,
        base.len() == round_len(x.len() as int, k, cs.len() as int),
        s == Seq::new(x.len(), |t: int| md(unfold(base, cs, x.len() as int, k, 0, t), q)),
    ensures
        eqm(dot(s, x), dot(base, bases_rising(x, cs, k, q, cs.len() as int)), q),
{
    let n = x.len() as int;
    let d = cs.len() as int;
    let hs = Seq::new(x.len(), |t: int| unfold(base, cs, n, k, 0, t));
    assert forall|t: int| 0 <= t < n implies eqm(#[trigger] s[t], hs[t], q) by {
        lemma_md_range(hs[t], q);
    }
    lemma_dot_eqm(s, hs, x, q);
    lemma_sum_ext(n, |t: int| unfold(base, cs, n, k, 0, t) * x[t], |i: int| hs[i] * x[i]);
    lemma_spread_rising(base, x, cs, k, q, d);
    lemma_spread_end(base, cs, n, k, bases_rising(x, cs, k, q, d));
}

/// Whatever the bases, the coefficients of an inner product argument make of
/// them the final vectors under the bases folded with powers of the
/// challenges. The coefficient of the third point is the inner product of the
/// final vectors, that of the commitment the product of the `k - 1`st powers of
/// the challenges, and cross term `x` of a round has a power of the challenge
/// of the round and the `k - 1`st powers of all later ones.
pub proof fn law_ipa_scalars<G: Group>(p: prove_ipa<G>, log: Log, x: Seq<int>)
    requires
        p.k >= 1,
        p.fits(x.len() as int),
        forall|i: int|
            0 <= i < p.U_vecs@.len() ==> invertible(
                #[trigger] p.challenges(log, x.len() as int)[i],
                G::Scalar::modulus(),
            ),
    ensures
        ({
            let q = G::Scalar::modulus();
            let (n, k, d) = (x.len() as int, p.k as int, p.U_vecs@.len() as int);
            let cs = p.challenges(log, n);
            let s = p.scalars(log, n);
            &&& s.g.len() == n
            &&& s.h.len() == n
            &&& s.u.len() == d * (2 * k - 2)
            &&& eqm(dot(s.g, x), dot(values(p.a_final@), bases_falling(x, cs, k - 1, k, q, d)), q)
            &&& eqm(dot(s.h, x), dot(values(p.b_final@), bases_rising(x, cs, k, q, d)), q)
            &&& eqm(s.q, dot(values(p.a_final@), values(p.b_final@)), q)
            &&& eqm(s.p, power_product(cs, k - 1, 0), q)
            &&& forall|r: int, y: int|
                0 <= r < d && 0 <= y < k - 1 ==> eqm(
                    #[trigger] s.u[r * (2 * k - 2) + y],
                    pow(cs[r], (k - 2 - y) as nat) * power_product(cs, k - 1, r + 1),
                    q,
                )
            &&& forall|r: int, y: int|
                0 <= r < d && k - 1 <= y < 2 * k - 2 ==> eqm(
                    #[trigger] s.u[r * (2 * k - 2) + y],
                    pow(cs[r], (y + 1) as nat) * power_product(cs, k - 1, r + 1),
                    q,
                )
        }),
{
    let q = G::Scalar::modulus();
    G::Scalar::modulus_range();
    let (n, k, d) = (x.len() as int, p.k as int, p.U_vecs@.len() as int);
    let cs = p.challenges(log, n);
    let s = p.scalars(log, n);
    let (a, b) = (values(p.a_final@), values(p.b_final@));
    lemma_falling_side(s.g, a, x, cs, k - 1, k, q);
    lemma_rising_side(s.h, b, x, cs, k, q);
    lemma_md_range(dot(a, b), q);
    lemma_power_product(cs, k - 1, 0);
    lemma_md_range(suffix_product(cs, k - 1, 0), q);
    let w = 2 * k - 2;
    assert(0 <= d * w) by (nonlinear_arith)
        requires
            d >= 0,
            w >= 0,
    ;
    assert forall|r: int, y: int| 0 <= r < d && 0 <= y < w implies eqm(
        #[trigger] s.u[r * w + y],
        pow(
            cs[r],
            (if y < k - 1 {
                k - 2 - y
            } else {
                y + 1
            }) as nat,
        ) * power_product(cs, k - 1, r + 1),
        q,
    ) by {
        vstd::arithmetic::div_mod::lemma_fundamental_div_mod_converse(r * w + y, w, r, y);
        assert(0 <= r * w + y < d * w) by (nonlinear_arith)
            requires
                0 <= r < d,
                0 <= y < w,
        ;
        lemma_power_product(cs, k - 1, r + 1);
        let e: int = if y < k - 1 {
            k - 2 - y
        } else {
            y + 1
        };
        lemma_md_range(pow(cs[r], e as nat) * suffix_product(cs, k - 1, r + 1), q);
    }
}

/// Whatever the bases, the coefficients of an argument for two sets of bases
/// make of them the final vector under the bases folded with powers of the
/// challenges. The coefficient of the commitment is the product of the `k`th
/// powers of the challenges, and cross term `x` of a round has a power of the
/// challenge of the round and the `k`th powers of all later ones.
pub proof fn law_ecp_scalars<G: Group>(p: prove_ecp<G>, log: Log, x: Seq<int>)
    requires
        p.k >= 1,
        p.fits(x.len() as int),
        forall|i: int|
            0 <= i < p.A_vecs@.len() ==> invertible(
                #[trigger] p.challenges(log, x.len() as int)[i],
                G::Scalar::modulus(),
            ),
    ensures
        ({
            let q = G::Scalar::modulus();
            let (n, k, d) = (x.len() as int, p.k as int, p.A_vecs@.len() as int);
            let cs = p.challenges(log, n);
            let s = p.scalars(log, n);
            &&& s.z.len() == n
            &&& s.u.len() == d * (2 * k - 2)
            &&& eqm(dot(s.z, x), dot(values(p.z@), bases_falling(x, cs, k, k, q, d)), q)
            &&& eqm(s.p, power_product(cs, k, 0), q)
            &&& forall|r: int, y: int|
                0 <= r < d && 0 <= y < k - 1 ==> eqm(
                    #[trigger] s.u[r * (2 * k - 2) + y],
                    pow(cs[r], (y + 1) as nat) * power_product(cs, k, r + 1),
                    q,
                )
            &&& forall|r: int, y: int|
                0 <= r < d && k - 1 <= y < 2 * k - 2 ==> eqm(
                    #[trigger] s.u[r * (2 * k - 2) + y],
                    pow(cs[r], (y + 2) as nat) * power_product(cs, k, r + 1),
                    q,
                )
        }),
{
    let q = G::Scalar::modulus();
    G::Scalar::modulus_range();
    let (n, k, d) = (x.len() as int, p.k as int, p.A_vecs@.len() as int);
    let cs = p.challenges(log, n);
    let s = p.scalars(log, n);
    lemma_falling_side(s.z, values(p.z@), x, cs, k, k, q);
    lemma_power_product(cs, k, 0);
    lemma_md_range(suffix_product(cs, k, 0), q);
    let w = 2 * k - 2;
    assert(0 <= d * w) by (nonlinear_arith)
        requires
            d >= 0,
            w >= 0,
    ;
    assert forall|r: int, y: int| 0 <= r < d && 0 <= y < w implies eqm(
        #[trigger] s.u[r * w + y],
        pow(
            cs[r],
            (if y < k - 1 {
                y + 1
            } else {
                y + 2
            }) as nat,
        ) * power_product(cs, k, r + 1),
        q,
    ) by {
        vstd::arithmetic::div_mod::lemma_fundamental_div_mod_converse(r * w + y, w, r, y);
        assert(0 <= r * w + y < d * w) by (nonlinear_arith)
            requires
                0 <= r < d,
                0 <= y < w,
        ;
        lemma_power_product(cs, k, r + 1);
        let e: int = if y < k - 1 {
            y + 1
        } else {
            y + 2
        };
        lemma_md_range(pow(cs[r], e as nat) * suffix_product(cs, k, r + 1), q);
    }
}

/// An argument fits `n` entries if its final vectors have as many as are left
/// when each round makes one of every `k`, rounded up.
pub proof fn law_fits<G: Group>(p: prove_ipa<G>, e: prove_ecp<G>, n: int)
    requires
        n >= 0,
        p.k >= 1,
        e.k >= 1,
    ensures
        ({
            let d = pow(p.k as int, p.U_vecs@.len());
            p.fits(n) <==> p.a_final@.len() == (n + d - 1) / d && p.b_final@.len() == (n + d - 1) / d
        }),
        ({
            let d = pow(e.k as int, e.A_vecs@.len());
            e.fits(n) <==> e.z@.len() == (n + d - 1) / d
        }),
{
    law_round_len(n, p.k as int, p.U_vecs@.len() as int);
    law_round_len(n, e.k as int, e.A_vecs@.len() as int);
}

/// Bases that are too few are followed by neutral elements, enough of them are
/// left as they are.
pub proof fn law_at_least(s: Seq<int>, n: int)
    requires
        n >= 0,
    ensures
        at_least(s, n).len() == (if s.len() < n {
            n as nat
        } else {
            s.len()
        }),
        at_least(s, n).take(s.len() as int) == s,
        forall|i: int| s.len() <= i < n ==> #[trigger] at_least(s, n)[i] == 0,
{
    assert(at_least(s, n).take(s.len() as int) =~= s);
}

} // verus!
