//! The inner product argument is complete: what an honest prover sends
//! satisfies the verification equation.

use vstd::arithmetic::div_mod::lemma_fundamental_div_mod_converse;
use vstd::arithmetic::power::pow;
use vstd::prelude::*;
use crate::folding::{falling, folded_len, lemma_folded_len, lower, pad, pad_for, round_len, upper};
use crate::folding_laws::{
    folded_product, lemma_dot_eqm, lemma_dot_pad, lemma_dot_scale, lemma_dot_symmetric, lemma_eqm_md_mul,
    lemma_fold_product, lemma_spread_end, lemma_spread_step, lemma_upper_lower, spread,
};
use crate::group::{Field, Group, encodes, values};
use crate::ipa::{
    IpaState, all_encode, encoded, inverses, ipa_cross, ipa_exponent, ipa_log, ipa_round_log, ipa_run,
    ipa_step, ipa_terms, ipa_verify_log, ipa_verify_round_log, lemma_ipa_len, prove_ipa,
};
use crate::modular::{
    eqm, inv_mod, is_inverse, lemma_eqm_add, lemma_eqm_mul, lemma_eqm_sum, lemma_inverse_product,
    lemma_md_range, md,
};
use crate::sums::{
    dot, lemma_sum_add, lemma_sum_blocks, lemma_sum_ext, lemma_sum_scale, lemma_sum_split, sum,
};
use crate::transcript::{Log, challenge};
use crate::unfolding::{suffix_product, unfold};
use crate::util::powers_of;

verus! {

/// `c` has an inverse modulo `q`.
pub open spec fn invertible(c: int, q: int) -> bool {
    exists|w: int| is_inverse(c, w, q)
}

/// What the vectors of a state commit to:
/// `<a, G> + <b, H> + <a, b> * Q`.
pub open spec fn ipa_value(s: IpaState, q_index: int) -> int {
    dot(s.a, s.g) + dot(s.b, s.h) + q_index * dot(s.a, s.b)
}

/// The cross terms of a round, weighted with powers of its challenge.
pub open spec fn ipa_weighted(terms: Seq<int>, c: int, k: int) -> int {
    sum(2 * k - 2, |x: int| pow(c, ipa_exponent(k, x) as nat) * terms[x])
}

/// The cross terms of all rounds, one round after the other.
pub open spec fn ipa_all_terms<G: Group>(s: IpaState, q_index: int, k: int, rounds: int) -> Seq<int> {
    Seq::new(
        (rounds * (2 * k - 2)) as nat,
        |i: int|
            ipa_terms::<G>(ipa_run::<G>(s, q_index, k, i / (2 * k - 2)), q_index, k)[i % (2 * k - 2)],
    )
}

/// Three folded products add up to that of the three sums.
proof fn lemma_three_products(
    a: Seq<int>,
    b: Seq<int>,
    g: Seq<int>,
    h: Seq<int>,
    q_index: int,
    k: int,
    m: int,
    c: int,
    q: int,
)
    requires
        q > 1,
        k >= 1,
        a.len() == k * m,
        b.len() == k * m,
        g.len() == k * m,
        h.len() == k * m,
    ensures
        eqm(
            folded_product(a, g, k, m, c, k - 1) + folded_product(h, b, k, m, c, k - 1) + q_index
                * folded_product(a, b, k, m, c, k - 1),
            pow(c, (k - 1) as nat) * (dot(a, g) + dot(b, h) + q_index * dot(a, b)) + ipa_weighted(
                ipa_cross(a, b, g, h, q_index, k, m, q),
                c,
                k,
            ),
            q,
        ),
{
    let e = k - 1;
    let top = pow(c, e as nat);
    let terms = ipa_cross(a, b, g, h, q_index, k, m, q);
    let pu = |z: int| pow(c, (e - (z + 1)) as nat);
    let pl = |z: int| pow(c, (e + (z + 1)) as nat);
    let u1 = |z: int| pu(z) * upper(a, g, k, m, z + 1);
    let u2 = |z: int| pu(z) * upper(h, b, k, m, z + 1);
    let u3 = |z: int| pu(z) * upper(a, b, k, m, z + 1);
    let l1 = |z: int| pl(z) * lower(a, g, k, m, z + 1);
    let l2 = |z: int| pl(z) * lower(h, b, k, m, z + 1);
    let l3 = |z: int| pl(z) * lower(a, b, k, m, z + 1);
    let su = |z: int| u1(z) + (u2(z) + q_index * u3(z));
    let sl = |z: int| l1(z) + (l2(z) + q_index * l3(z));
    lemma_sum_scale(e, q_index, u3);
    lemma_sum_scale(e, q_index, l3);
    let qu = |z: int| q_index * u3(z);
    let ql = |z: int| q_index * l3(z);
    lemma_sum_add(e, u2, qu);
    lemma_sum_add(e, l2, ql);
    let u23 = |z: int| u2(z) + qu(z);
    let l23 = |z: int| l2(z) + ql(z);
    lemma_sum_add(e, u1, u23);
    lemma_sum_add(e, l1, l23);
    lemma_sum_ext(e, su, |z: int| u1(z) + u23(z));
    lemma_sum_ext(e, sl, |z: int| l1(z) + l23(z));
    // The weighted terms, first those above the diagonal.
    let wt = |x: int| pow(c, ipa_exponent(k, x) as nat) * terms[x];
    lemma_sum_split(e, e, wt);
    let wl = |z: int| wt(e + z);
    assert forall|z: int| 0 <= z < e implies eqm(#[trigger] su(z), wt(z), q) by {
        lemma_upper_lower(h, b, k, m, z + 1);
        let (x1, x2, x3, p) = (
            upper(a, g, k, m, z + 1),
            lower(b, h, k, m, z + 1),
            upper(a, b, k, m, z + 1),
            pu(z),
        );
        assert(p * x1 + (p * x2 + q_index * (p * x3)) == p * (x1 + x2 + q_index * x3)) by (nonlinear_arith);
        lemma_eqm_md_mul(p, x1 + x2 + q_index * x3, q);
    }
    assert forall|z: int| 0 <= z < e implies eqm(#[trigger] sl(z), wl(z), q) by {
        lemma_upper_lower(b, h, k, m, z + 1);
        let (x1, x2, x3, p) = (
            lower(a, g, k, m, z + 1),
            upper(b, h, k, m, z + 1),
            lower(a, b, k, m, z + 1),
            pl(z),
        );
        assert(p * x1 + (p * x2 + q_index * (p * x3)) == p * (x1 + x2 + q_index * x3)) by (nonlinear_arith);
        lemma_eqm_md_mul(p, x1 + x2 + q_index * x3, q);
    }
    lemma_eqm_sum(e, su, wt, q);
    lemma_eqm_sum(e, sl, wl, q);
    lemma_sum_ext(e, |i: int| wt(e + i), wl);
    lemma_eqm_add(sum(e, su), sum(e, wt), sum(e, sl), sum(e, wl), q);
    lemma_dot_symmetric(h, b);
    let (d1, d2, d3) = (dot(a, g), dot(b, h), dot(a, b));
    let (s1, s2, s3) = (sum(e, u1), sum(e, u2), sum(e, u3));
    let (t1, t2, t3) = (sum(e, l1), sum(e, l2), sum(e, l3));
    assert((top * d1 + s1 + t1) + (top * d2 + s2 + t2) + q_index * (top * d3 + s3 + t3) == top * (d1 + d2
        + q_index * d3) + ((s1 + (s2 + q_index * s3)) + (t1 + (t2 + q_index * t3)))) by (nonlinear_arith);
    lemma_sum_ext(e, |z: int| pow(c, (e - (z + 1)) as nat) * upper(a, g, k, m, z + 1), u1);
    lemma_sum_ext(e, |z: int| pow(c, (e - (z + 1)) as nat) * upper(h, b, k, m, z + 1), u2);
    lemma_sum_ext(e, |z: int| pow(c, (e - (z + 1)) as nat) * upper(a, b, k, m, z + 1), u3);
    lemma_sum_ext(e, |z: int| pow(c, (e + (z + 1)) as nat) * lower(a, g, k, m, z + 1), l1);
    lemma_sum_ext(e, |z: int| pow(c, (e + (z + 1)) as nat) * lower(h, b, k, m, z + 1), l2);
    lemma_sum_ext(e, |z: int| pow(c, (e + (z + 1)) as nat) * lower(a, b, k, m, z + 1), l3);
    lemma_eqm_add(
        top * (d1 + d2 + q_index * d3),
        top * (d1 + d2 + q_index * d3),
        sum(e, su) + sum(e, sl),
        sum(e, wt) + sum(e, wl),
        q,
    );
}

/// One round multiplies what the vectors commit to by `c^(k - 1)` and adds
/// the weighted cross terms.
pub proof fn lemma_ipa_round<G: Group>(s: IpaState, q_index: int, k: int, round: int)
    requires
        k >= 1,
        s.a.len() == s.b.len() == s.g.len() == s.h.len(),
        invertible(
            challenge::<G::Scalar>(ipa_round_log::<G>(s, q_index, k, round), "challenge_separator"@),
            G::Scalar::modulus(),
        ),
    ensures
        ({
            let c = challenge::<G::Scalar>(ipa_round_log::<G>(s, q_index, k, round), "challenge_separator"@);
            eqm(
                ipa_value(ipa_step::<G>(s, q_index, k, round), q_index),
                pow(c, (k - 1) as nat) * ipa_value(s, q_index) + ipa_weighted(
                    ipa_terms::<G>(s, q_index, k),
                    c,
                    k,
                ),
                G::Scalar::modulus(),
            )
        }),
{
    let q = G::Scalar::modulus();
    G::Scalar::modulus_range();
    let n = s.a.len() as int;
    let m = folded_len(n, k);
    lemma_folded_len(n, k);
    let c = challenge::<G::Scalar>(ipa_round_log::<G>(s, q_index, k, round), "challenge_separator"@);
    lemma_inverse_product(c, q);
    let (a, b, g, h) = (pad_for(s.a, n, k), pad_for(s.b, n, k), pad_for(s.g, n, k), pad_for(s.h, n, k));
    let extra = k * m - n;
    lemma_dot_pad(s.a, s.g, extra);
    lemma_dot_pad(s.b, s.h, extra);
    lemma_dot_pad(s.a, s.b, extra);
    lemma_fold_product(a, g, k, m, c, k - 1, q);
    lemma_fold_product(h, b, k, m, c, k - 1, q);
    lemma_fold_product(a, b, k, m, c, k - 1, q);
    let t = ipa_step::<G>(s, q_index, k, round);
    lemma_dot_symmetric(t.h, t.b);
    let (f1, f2, f3) = (
        folded_product(a, g, k, m, c, k - 1),
        folded_product(h, b, k, m, c, k - 1),
        folded_product(a, b, k, m, c, k - 1),
    );
    lemma_eqm_mul(q_index, q_index, dot(t.a, t.b), f3, q);
    lemma_eqm_add(dot(t.a, t.g), f1, dot(t.b, t.h), f2, q);
    lemma_eqm_add(dot(t.a, t.g) + dot(t.b, t.h), f1 + f2, q_index * dot(t.a, t.b), q_index * f3, q);
    lemma_three_products(a, b, g, h, q_index, k, m, c, q);
}

/// A verifier who reads an honest prover's messages goes through the same log
/// and draws the same challenges.
pub proof fn lemma_ipa_logs_agree<G: Group>(
    p: prove_ipa<G>,
    s: IpaState,
    q_index: int,
    k: int,
    rounds: int,
    r: int,
)
    requires
        k >= 1,
        p.proves(s, q_index, k, rounds),
        0 <= r <= rounds,
    ensures
        ipa_verify_log(s.log, p.points(), k, r) == ipa_run::<G>(s, q_index, k, r).log,
        r < rounds ==> ipa_verify_round_log(s.log, p.points(), k, r) == ipa_round_log::<G>(
            ipa_run::<G>(s, q_index, k, r),
            q_index,
            k,
            r,
        ),
    decreases r,
{
    if r > 0 {
        lemma_ipa_logs_agree::<G>(p, s, q_index, k, rounds, r - 1);
    }
    if r < rounds {
        let terms = ipa_terms::<G>(ipa_run::<G>(s, q_index, k, r), q_index, k);
        assert(all_encode::<G>(p.U_vecs@[r]@, terms));
        assert(p.points()[r] =~= encoded::<G>(terms));
    }
}

/// The product of all later challenges, after round `r`.
proof fn lemma_ipa_telescope<G: Group>(s: IpaState, q_index: int, k: int, cs: Seq<int>, r: int)
    requires
        k >= 1,
        s.a.len() == s.b.len() == s.g.len() == s.h.len(),
        0 <= r <= cs.len(),
        forall|i: int|
            0 <= i < cs.len() ==> #[trigger] cs[i] == challenge::<G::Scalar>(
                ipa_round_log::<G>(ipa_run::<G>(s, q_index, k, i), q_index, k, i),
                "challenge_separator"@,
            ),
        forall|i: int| 0 <= i < cs.len() ==> invertible(#[trigger] cs[i], G::Scalar::modulus()),
    ensures
        eqm(
            suffix_product(cs, k - 1, r) * ipa_value(ipa_run::<G>(s, q_index, k, r), q_index),
            suffix_product(cs, k - 1, 0) * ipa_value(s, q_index) + sum(
                r,
                |i: int|
                    suffix_product(cs, k - 1, i + 1) * ipa_weighted(
                        ipa_terms::<G>(ipa_run::<G>(s, q_index, k, i), q_index, k),
                        cs[i],
                        k,
                    ),
            ),
            G::Scalar::modulus(),
        ),
    decreases r,
{
    let q = G::Scalar::modulus();
    G::Scalar::modulus_range();
    let f = |i: int|
        suffix_product(cs, k - 1, i + 1) * ipa_weighted(
            ipa_terms::<G>(ipa_run::<G>(s, q_index, k, i), q_index, k),
            cs[i],
            k,
        );
    if r > 0 {
        lemma_ipa_telescope::<G>(s, q_index, k, cs, r - 1);
        let prev = ipa_run::<G>(s, q_index, k, r - 1);
        let c = cs[r - 1];
        assert(invertible(c, q));
        lemma_ipa_len::<G>(s, q_index, k, r - 1);
        lemma_ipa_round::<G>(prev, q_index, k, r - 1);
        let v1 = ipa_value(prev, q_index);
        let v2 = ipa_value(ipa_run::<G>(s, q_index, k, r), q_index);
        let top = pow(c, (k - 1) as nat);
        let w = ipa_weighted(ipa_terms::<G>(prev, q_index, k), c, k);
        let x = suffix_product(cs, k - 1, r);
        lemma_eqm_mul(x, x, v2, top * v1 + w, q);
        assert(x * (top * v1 + w) == (top * x) * v1 + x * w) by (nonlinear_arith);
        let start = suffix_product(cs, k - 1, 0) * ipa_value(s, q_index);
        lemma_eqm_add(suffix_product(cs, k - 1, r - 1) * v1, start + sum(r - 1, f), x * w, x * w, q);
        assert(f(r - 1) == x * w);
    } else {
        assert(sum(0, f) == 0);
    }
}

/// The bases under the final vector are the original bases under the
/// spread-out vector.
proof fn lemma_ipa_spread<G: Group>(
    s: IpaState,
    q_index: int,
    k: int,
    cs: Seq<int>,
    a: Seq<int>,
    b: Seq<int>,
    r: int,
)
    requires
        k >= 1,
        s.a.len() == s.b.len() == s.g.len() == s.h.len(),
        0 <= r <= cs.len(),
        forall|i: int|
            0 <= i < cs.len() ==> #[trigger] cs[i] == challenge::<G::Scalar>(
                ipa_round_log::<G>(ipa_run::<G>(s, q_index, k, i), q_index, k, i),
                "challenge_separator"@,
            ),
        forall|i: int| 0 <= i < cs.len() ==> invertible(#[trigger] cs[i], G::Scalar::modulus()),
    ensures
        ({
            let q = G::Scalar::modulus();
            let n = s.a.len() as int;
            let t = ipa_run::<G>(s, q_index, k, r);
            &&& eqm(
                suffix_product(cs, k - 1, r) * spread(a, inverses(cs, q), n, k, r, t.g),
                suffix_product(cs, k - 1, 0) * spread(a, inverses(cs, q), n, k, 0, s.g),
                q,
            )
            &&& eqm(spread(b, cs, n, k, r, t.h), spread(b, cs, n, k, 0, s.h), q)
        }),
    decreases r,
{
    let q = G::Scalar::modulus();
    G::Scalar::modulus_range();
    let n = s.a.len() as int;
    if r > 0 {
        lemma_ipa_spread::<G>(s, q_index, k, cs, a, b, r - 1);
        lemma_ipa_len::<G>(s, q_index, k, r - 1);
        let prev = ipa_run::<G>(s, q_index, k, r - 1);
        let t = ipa_run::<G>(s, q_index, k, r);
        let c = cs[r - 1];
        assert(invertible(c, q));
        let w = inv_mod(c, q);
        let top = pow(c, (k - 1) as nat);
        let down = falling(c, k - 1, k, q);
        let up = powers_of(c, k, q);
        assert forall|i: int| 0 <= i < k implies eqm(
            #[trigger] down[i],
            top * pow(inverses(cs, q)[r - 1], i as nat),
            q,
        ) by {
            lemma_md_range(top * pow(w, i as nat), q);
        }
        lemma_spread_step(a, inverses(cs, q), n, k, r - 1, prev.g, down, top, q);
        assert forall|i: int| 0 <= i < k implies eqm(#[trigger] up[i], 1 * pow(cs[r - 1], i as nat), q) by {
            lemma_md_range(pow(c, i as nat), q);
        }
        lemma_spread_step(b, cs, n, k, r - 1, prev.h, up, 1, q);
        let x = suffix_product(cs, k - 1, r);
        let g1 = spread(a, inverses(cs, q), n, k, r - 1, prev.g);
        let g2 = spread(a, inverses(cs, q), n, k, r, t.g);
        lemma_eqm_mul(x, x, g2, top * g1, q);
        assert(x * (top * g1) == (top * x) * g1) by (nonlinear_arith);
    }
}

/// The cross terms of an honest proof decode to those of its run.
proof fn lemma_ipa_decoded<G: Group>(p: prove_ipa<G>, s: IpaState, q_index: int, k: int, rounds: int)
    requires
        k >= 1,
        p.proves(s, q_index, k, rounds),
    ensures
        forall|r: int, x: int|
            0 <= r < rounds && 0 <= x < 2 * k - 2 ==> G::decoding(#[trigger] p.points()[r][x]) == Some(
                ipa_all_terms::<G>(s, q_index, k, rounds)[r * (2 * k - 2) + x],
            ),
{
    let w = 2 * k - 2;
    assert forall|r: int, x: int| 0 <= r < rounds && 0 <= x < w implies G::decoding(
        #[trigger] p.points()[r][x],
    ) == Some(ipa_all_terms::<G>(s, q_index, k, rounds)[r * w + x]) by {
        let terms = ipa_terms::<G>(ipa_run::<G>(s, q_index, k, r), q_index, k);
        assert(all_encode::<G>(p.U_vecs@[r]@, terms));
        assert(encodes::<G>(p.U_vecs@[r]@[x], terms[x]));
        vstd::arithmetic::div_mod::lemma_fundamental_div_mod_converse(r * w + x, w, r, x);
        assert(0 <= r * w + x < rounds * w) by (nonlinear_arith)
            requires
                0 <= r < rounds,
                0 <= x < w,
        ;
    }
}

/// Completeness of the inner product argument.
///
/// If the challenges have inverses, an honest proof has the shape that a
/// verifier expects, prover and verifier end with the same log, and the
/// coefficients that the verifier computes satisfy the verification equation
/// `<g, G> + <h, H> + q * Q = p * (<a, G> + <b, H> + <a, b> * Q) + <u, U>`,
/// where `q` is the inner product of the final vectors and `U` is what the
/// cross terms of the proof decode to.
pub proof fn law_ipa_complete<G: Group>(
    p: prove_ipa<G>,
    s: IpaState,
    log: Log,
    q_index: int,
    k: int,
    rounds: int,
)
    requires
        k >= 1,
        2 * k <= usize::MAX,
        rounds >= 0,
        s.a.len() == s.b.len() == s.g.len() == s.h.len(),
        s.log == ipa_log(log, s.a.len() as int, k),
        p.proves(s, q_index, k, rounds),
        forall|r: int|
            0 <= r < rounds ==> invertible(
                #[trigger] p.challenges(log, s.a.len() as int)[r],
                G::Scalar::modulus(),
            ),
    ensures
        p.shaped(),
        p.k == k,
        p.U_vecs@.len() == rounds,
        p.fits(s.a.len() as int),
        p.log_after(log, s.a.len() as int) == ipa_run::<G>(s, q_index, k, rounds).log,
        forall|r: int, x: int|
            0 <= r < rounds && 0 <= x < 2 * k - 2 ==> G::decoding(#[trigger] p.points()[r][x]) == Some(
                ipa_all_terms::<G>(s, q_index, k, rounds)[r * (2 * k - 2) + x],
            ),
        ({
            let c = p.scalars(log, s.a.len() as int);
            &&& c.q == md(dot(values(p.a_final@), values(p.b_final@)), G::Scalar::modulus())
            &&& eqm(
                dot(c.g, s.g) + dot(c.h, s.h) + q_index * c.q,
                c.p * (dot(s.a, s.g) + dot(s.b, s.h) + q_index * dot(s.a, s.b)) + dot(
                    c.u,
                    ipa_all_terms::<G>(s, q_index, k, rounds),
                ),
                G::Scalar::modulus(),
            )
        }),
{
    let q = G::Scalar::modulus();
    G::Scalar::modulus_range();
    let n = s.a.len() as int;
    let cs = p.challenges(log, n);
    let end = ipa_run::<G>(s, q_index, k, rounds);
    lemma_ipa_len::<G>(s, q_index, k, rounds);
    lemma_ipa_decoded::<G>(p, s, q_index, k, rounds);
    assert forall|r: int| 0 <= r < p.U_vecs@.len() implies (#[trigger] p.U_vecs@[r])@.len() >= 2 * p.k - 2 by {
        assert(all_encode::<G>(p.U_vecs@[r]@, ipa_terms::<G>(ipa_run::<G>(s, q_index, k, r), q_index, k)));
    }
    assert forall|r: int, x: int| 0 <= r < p.U_vecs@.len() && 0 <= x < 2 * p.k - 2 implies G::bytes(
        #[trigger] p.U_vecs@[r]@[x],
    ).len() <= u32::MAX by {
        assert(all_encode::<G>(p.U_vecs@[r]@, ipa_terms::<G>(ipa_run::<G>(s, q_index, k, r), q_index, k)));
    }
    assert(values(p.a_final@).len() == end.a.len());
    assert(values(p.b_final@).len() == end.b.len());
    lemma_ipa_logs_agree::<G>(p, s, q_index, k, rounds, rounds);
    assert forall|i: int| 0 <= i < cs.len() implies #[trigger] cs[i] == challenge::<G::Scalar>(
        ipa_round_log::<G>(ipa_run::<G>(s, q_index, k, i), q_index, k, i),
        "challenge_separator"@,
    ) by {
        lemma_ipa_logs_agree::<G>(p, s, q_index, k, rounds, i);
    }
    let (a, b) = (end.a, end.b);
    let c = p.scalars(log, n);
    let prod = suffix_product(cs, k - 1, 0);
    lemma_ipa_telescope::<G>(s, q_index, k, cs, rounds);
    lemma_ipa_spread::<G>(s, q_index, k, cs, a, b, rounds);
    assert(suffix_product(cs, k - 1, rounds) == 1);
    // The bases G.
    let ws = inverses(cs, q);
    let gs = Seq::new(n as nat, |t: int| unfold(a, ws, n, k, 0, t) * prod);
    let us = Seq::new(n as nat, |t: int| unfold(a, ws, n, k, 0, t));
    assert forall|t: int| 0 <= t < n implies eqm(#[trigger] c.g[t], gs[t], q) by {
        lemma_md_range(gs[t], q);
    }
    lemma_dot_eqm(c.g, gs, s.g, q);
    lemma_dot_scale(gs, us, s.g, prod);
    lemma_sum_ext(n, |t: int| unfold(a, ws, n, k, 0, t) * s.g[t], |i: int| us[i] * s.g[i]);
    lemma_spread_end(a, ws, n, k, end.g);
    let g_end = dot(a, end.g);
    assert(1 * g_end == g_end);
    assert(eqm(dot(c.g, s.g), g_end, q));
    // The bases H.
    let hs = Seq::new(n as nat, |t: int| unfold(b, cs, n, k, 0, t));
    assert forall|t: int| 0 <= t < n implies eqm(#[trigger] c.h[t], hs[t], q) by {
        lemma_md_range(hs[t], q);
    }
    lemma_dot_eqm(c.h, hs, s.h, q);
    lemma_sum_ext(n, |t: int| unfold(b, cs, n, k, 0, t) * s.h[t], |i: int| hs[i] * s.h[i]);
    lemma_spread_end(b, cs, n, k, end.h);
    assert(eqm(dot(c.h, s.h), dot(b, end.h), q));
    // The point Q.
    lemma_eqm_md_mul(q_index, dot(a, b), q);
    lemma_eqm_add(dot(c.g, s.g), g_end, dot(c.h, s.h), dot(b, end.h), q);
    lemma_eqm_add(
        dot(c.g, s.g) + dot(c.h, s.h),
        g_end + dot(b, end.h),
        q_index * c.q,
        q_index * dot(a, b),
        q,
    );
    let v = ipa_value(end, q_index);
    assert(1 * v == v);
    // The commitment and the cross terms.
    let w = 2 * k - 2;
    let flat = ipa_all_terms::<G>(s, q_index, k, rounds);
    let f = |i: int|
        suffix_product(cs, k - 1, i + 1) * ipa_weighted(
            ipa_terms::<G>(ipa_run::<G>(s, q_index, k, i), q_index, k),
            cs[i],
            k,
        );
    let ux = Seq::new(
        (rounds * w) as nat,
        |i: int|
            pow(cs[i / w], ipa_exponent(k, i % w) as nat) * suffix_product(cs, k - 1, i / w + 1),
    );
    assert(rounds * w >= 0) by (nonlinear_arith)
        requires
            rounds >= 0,
            w >= 0,
    ;
    assert forall|i: int| 0 <= i < rounds * w implies eqm(#[trigger] c.u[i], ux[i], q) by {
        lemma_md_range(ux[i], q);
    }
    assert(c.u.len() == ux.len());
    lemma_dot_eqm(c.u, ux, flat, q);
    let du = |i: int| ux[i] * flat[i];
    lemma_sum_blocks(rounds, w, du);
    let blocks = |i: int| sum(w, |j: int| du(i * w + j));
    assert forall|r: int| 0 <= r < rounds implies #[trigger] blocks(r) == f(r) by {
        let x = suffix_product(cs, k - 1, r + 1);
        let terms = ipa_terms::<G>(ipa_run::<G>(s, q_index, k, r), q_index, k);
        let g = |y: int| pow(cs[r], ipa_exponent(k, y) as nat) * terms[y];
        assert forall|j: int| 0 <= j < w implies du(r * w + j) == #[trigger] g(j) * x by {
            crate::folding::lemma_block_index(r, j, rounds, w);
            lemma_fundamental_div_mod_converse(r * w + j, w, r, j);
            let (y, z) = (pow(cs[r], ipa_exponent(k, j) as nat), terms[j]);
            assert((y * x) * z == (y * z) * x) by (nonlinear_arith);
        }
        let b1 = |j: int| du(r * w + j);
        let b2 = |j: int| x * g(j);
        assert forall|j: int| 0 <= j < w implies #[trigger] b1(j) == b2(j) by {
            assert(du(r * w + j) == g(j) * x);
            let y = g(j);
            assert(y * x == x * y) by (nonlinear_arith);
        }
        lemma_sum_ext(w, b1, b2);
        lemma_sum_scale(w, x, g);
        lemma_sum_ext(w, |j: int| du(r * w + j), b1);
    }
    lemma_sum_ext(rounds, blocks, f);
    lemma_sum_ext(rounds * w, |i: int| ux[i] * flat[i], du);
    lemma_md_range(prod, q);
    let v0 = ipa_value(s, q_index);
    lemma_eqm_mul(c.p, prod, v0, v0, q);
    lemma_eqm_add(c.p * v0, prod * v0, dot(c.u, flat), sum(rounds, f), q);
}

/// The vectors of a round are padded with zeros and neutral elements at their
/// end: whoever pads them beforehand sends the same cross terms in the first
/// round, and ends it with as many entries, one for `k` of the padded ones.
pub proof fn law_ipa_padding<G: Group>(
    p: prove_ipa<G>,
    padded: prove_ipa<G>,
    s: IpaState,
    t: IpaState,
    q_index: int,
    k: int,
)
    requires
        k >= 1,
        s.a.len() == s.b.len() == s.g.len() == s.h.len(),
        s.a.len() as int % k != 0,
        ({
            let extra = k - s.a.len() as int % k;
            &&& t.a == pad(s.a, extra)
            &&& t.b == pad(s.b, extra)
            &&& t.g == pad(s.g, extra)
            &&& t.h == pad(s.h, extra)
        }),
        p.proves(s, q_index, k, 1),
        padded.proves(t, q_index, k, 1),
    ensures
        p.points()[0] == padded.points()[0],
        p.a_final@.len() == padded.a_final@.len(),
        p.b_final@.len() == padded.b_final@.len(),
        k * p.a_final@.len() == s.a.len() + (k - s.a.len() as int % k),
{
    let n = s.a.len() as int;
    let m = folded_len(n, k);
    lemma_folded_len(n, k);
    let extra = k - n % k;
    assert(k * m == n + extra);
    assert(t.a.len() == n + extra);
    vstd::arithmetic::div_mod::lemma_mod_multiples_basic(m, k);
    assert(m * k == k * m) by (nonlinear_arith);
    assert((n + extra) % k == 0);
    lemma_folded_len(n + extra, k);
    let m2 = folded_len(n + extra, k);
    assert(m2 == m) by (nonlinear_arith)
        requires
            k * m2 == k * m,
            k >= 1,
    ;
    assert(pad_for(t.a, n + extra, k) =~= pad_for(s.a, n, k));
    assert(pad_for(t.b, n + extra, k) =~= pad_for(s.b, n, k));
    assert(pad_for(t.g, n + extra, k) =~= pad_for(s.g, n, k));
    assert(pad_for(t.h, n + extra, k) =~= pad_for(s.h, n, k));
    assert(ipa_run::<G>(s, q_index, k, 0) == s && ipa_run::<G>(t, q_index, k, 0) == t);
    assert(ipa_terms::<G>(s, q_index, k) == ipa_terms::<G>(t, q_index, k));
    let terms = ipa_terms::<G>(s, q_index, k);
    assert(all_encode::<G>(p.U_vecs@[0]@, terms));
    assert(all_encode::<G>(padded.U_vecs@[0]@, terms));
    assert(p.points()[0] =~= padded.points()[0]) by {
        assert forall|x: int| 0 <= x < terms.len() implies p.points()[0][x] == padded.points()[0][x] by {
            assert(encodes::<G>(p.U_vecs@[0]@[x], terms[x]));
            assert(encodes::<G>(padded.U_vecs@[0]@[x], terms[x]));
        }
    }
    lemma_ipa_len::<G>(s, q_index, k, 1);
    lemma_ipa_len::<G>(t, q_index, k, 1);
    assert(round_len(n, k, 1) == folded_len(round_len(n, k, 0), k));
    assert(round_len(n + extra, k, 1) == folded_len(round_len(n + extra, k, 0), k));
    assert(values(p.a_final@).len() == m && values(padded.a_final@).len() == m);
    assert(values(p.b_final@).len() == m && values(padded.b_final@).len() == m);
}

} // verus!
