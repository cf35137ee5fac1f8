//! The folding argument for two sets of bases is complete: what an honest
//! prover sends satisfies both verification equations.

use vstd::arithmetic::div_mod::lemma_fundamental_div_mod_converse;
use vstd::arithmetic::power::pow;
use vstd::prelude::*;
use crate::ecp::{
    EcpState, at_least, ecp_cross, ecp_exponent, ecp_log, ecp_round_log, ecp_run, ecp_step, ecp_terms_0,
    ecp_terms_1, ecp_verify_log, ecp_verify_round_log, lemma_ecp_len, pairs_encode, prove_ecp,
};
use crate::folding::{falling, folded_len, lemma_block_index, lemma_folded_len, lower, pad, pad_for, upper};
use crate::folding_laws::{
    folded_product, law_round_len, lemma_dot_eqm, lemma_dot_pad, lemma_dot_scale, lemma_eqm_md_mul,
    lemma_fold_product, lemma_spread_end, lemma_spread_step, spread,
};
use crate::group::{Field, Group, encodes, values};
use crate::ipa::{encoded, inverses};
use crate::ipa_laws::invertible;
use crate::modular::{
    eqm, inv_mod, lemma_eqm_add, lemma_eqm_mul, lemma_eqm_sum, lemma_inverse_product, lemma_md_range,
};
use crate::sums::{
    dot, lemma_sum_blocks, lemma_sum_ext, lemma_sum_reverse, lemma_sum_scale, lemma_sum_split,
    lemma_sum_truncate, sum,
};
use crate::transcript::{Log, challenge};
use crate::unfolding::{suffix_product, unfold};

verus! {

/// One of the two sets of bases.
pub open spec fn ecp_bases(s: EcpState, side: int) -> Seq<int> {
    if side == 0 {
        s.g
    } else {
        s.c
    }
}

/// The cross terms of a round under one of the two sets of bases.
pub open spec fn ecp_terms<G: Group>(s: EcpState, k: int, side: int) -> Seq<int> {
    if side == 0 {
        ecp_terms_0::<G>(s, k)
    } else {
        ecp_terms_1::<G>(s, k)
    }
}

/// The cross terms of a round, weighted with powers of its challenge.
pub open spec fn ecp_weighted(terms: Seq<int>, c: int, k: int) -> int {
    sum(2 * k - 2, |x: int| pow(c, ecp_exponent(k, x) as nat) * terms[x])
}

/// The cross terms of all rounds, one round after the other.
pub open spec fn ecp_all_terms<G: Group>(s: EcpState, k: int, rounds: int, side: int) -> Seq<int> {
    Seq::new(
        (rounds * (2 * k - 2)) as nat,
        |i: int| ecp_terms::<G>(ecp_run::<G>(s, k, i / (2 * k - 2)), k, side)[i % (2 * k - 2)],
    )
}

/// The folded product in terms of the cross terms.
proof fn lemma_ecp_product(a: Seq<int>, x: Seq<int>, k: int, m: int, c: int, q: int)
    requires
        q > 1,
        k >= 1,
    ensures
        eqm(
            folded_product(a, x, k, m, c, k),
            pow(c, k as nat) * dot(a, x) + ecp_weighted(ecp_cross(a, x, k, m, q), c, k),
            q,
        ),
{
    let e = k - 1;
    let terms = ecp_cross(a, x, k, m, q);
    let fu = |z: int| pow(c, (k - (z + 1)) as nat) * upper(a, x, k, m, z + 1);
    let fl = |z: int| pow(c, (k + (z + 1)) as nat) * lower(a, x, k, m, z + 1);
    let wt = |y: int| pow(c, ecp_exponent(k, y) as nat) * terms[y];
    lemma_sum_split(e, e, wt);
    let wl = |z: int| wt(e + z);
    let ru = |z: int| fu(e - 1 - z);
    lemma_sum_reverse(e, fu);
    lemma_sum_ext(e, |i: int| fu(e - 1 - i), ru);
    assert forall|z: int| 0 <= z < e implies eqm(#[trigger] ru(z), wt(z), q) by {
        lemma_eqm_md_mul(pow(c, (z + 1) as nat), upper(a, x, k, m, k - 1 - z), q);
    }
    assert forall|z: int| 0 <= z < e implies eqm(#[trigger] fl(z), wl(z), q) by {
        lemma_eqm_md_mul(pow(c, (k + (z + 1)) as nat), lower(a, x, k, m, z + 1), q);
    }
    lemma_eqm_sum(e, ru, wt, q);
    lemma_eqm_sum(e, fl, wl, q);
    lemma_sum_ext(e, |i: int| wt(e + i), wl);
    lemma_eqm_add(sum(e, ru), sum(e, wt), sum(e, fl), sum(e, wl), q);
    let d = pow(c, k as nat) * dot(a, x);
    lemma_sum_ext(e, |z: int| pow(c, (k - (z + 1)) as nat) * upper(a, x, k, m, z + 1), fu);
    lemma_sum_ext(e, |z: int| pow(c, (k + (z + 1)) as nat) * lower(a, x, k, m, z + 1), fl);
    lemma_eqm_add(d, d, sum(e, ru) + sum(e, fl), sum(e, wt) + sum(e, wl), q);
}

/// One round multiplies the inner product by `c^k` and adds the weighted
/// cross terms.
pub proof fn lemma_ecp_round<G: Group>(s: EcpState, k: int, round: int, side: int)
    requires
        k >= 1,
        side == 0 || side == 1,
        s.a.len() == s.g.len() == s.c.len(),
        invertible(
            challenge::<G::Scalar>(ecp_round_log::<G>(s, k, round), "challenge_separator"@),
            G::Scalar::modulus(),
        ),
    ensures
        ({
            let c = challenge::<G::Scalar>(ecp_round_log::<G>(s, k, round), "challenge_separator"@);
            let t = ecp_step::<G>(s, k, round);
            eqm(
                dot(t.a, ecp_bases(t, side)),
                pow(c, k as nat) * dot(s.a, ecp_bases(s, side)) + ecp_weighted(
                    ecp_terms::<G>(s, k, side),
                    c,
                    k,
                ),
                G::Scalar::modulus(),
            )
        }),
{
    let q = G::Scalar::modulus();
    G::Scalar::modulus_range();
    let n = s.a.len() as int;
    let m = folded_len(n, k);
    lemma_folded_len(n, k);
    let c = challenge::<G::Scalar>(ecp_round_log::<G>(s, k, round), "challenge_separator"@);
    lemma_inverse_product(c, q);
    let x = ecp_bases(s, side);
    let (pa, px) = (pad_for(s.a, n, k), pad_for(x, n, k));
    lemma_dot_pad(s.a, x, k * m - n);
    lemma_fold_product(pa, px, k, m, c, k, q);
    lemma_ecp_product(pa, px, k, m, c, q);
}

/// A verifier who reads an honest prover's messages goes through the same log
/// and draws the same challenges.
pub proof fn lemma_ecp_logs_agree<G: Group>(p: prove_ecp<G>, s: EcpState, k: int, rounds: int, r: int)
    requires
        k >= 1,
        p.proves(s, k, rounds),
        0 <= r <= rounds,
    ensures
        ecp_verify_log(s.log, p.points(0), p.points(1), k, r) == ecp_run::<G>(s, k, r).log,
        r < rounds ==> ecp_verify_round_log(s.log, p.points(0), p.points(1), k, r) == ecp_round_log::<G>(
            ecp_run::<G>(s, k, r),
            k,
            r,
        ),
    decreases r,
{
    if r > 0 {
        lemma_ecp_logs_agree::<G>(p, s, k, rounds, r - 1);
    }
    if r < rounds {
        let t0 = ecp_terms_0::<G>(ecp_run::<G>(s, k, r), k);
        let t1 = ecp_terms_1::<G>(ecp_run::<G>(s, k, r), k);
        assert(pairs_encode::<G>(p.A_vecs@[r]@, t0, t1));
        assert(p.points(0)[r] =~= encoded::<G>(t0));
        assert(p.points(1)[r] =~= encoded::<G>(t1));
    }
}

proof fn lemma_ecp_telescope<G: Group>(s: EcpState, k: int, cs: Seq<int>, side: int, r: int)
    requires
        k >= 1,
        side == 0 || side == 1,
        s.a.len() == s.g.len() == s.c.len(),
        0 <= r <= cs.len(),
        forall|i: int|
            0 <= i < cs.len() ==> #[trigger] cs[i] == challenge::<G::Scalar>(
                ecp_round_log::<G>(ecp_run::<G>(s, k, i), k, i),
                "challenge_separator"@,
            ),
        forall|i: int| 0 <= i < cs.len() ==> invertible(#[trigger] cs[i], G::Scalar::modulus()),
    ensures
        ({
            let t = ecp_run::<G>(s, k, r);
            eqm(
                suffix_product(cs, k, r) * dot(t.a, ecp_bases(t, side)),
                suffix_product(cs, k, 0) * dot(s.a, ecp_bases(s, side)) + sum(
                    r,
                    |i: int|
                        suffix_product(cs, k, i + 1) * ecp_weighted(
                            ecp_terms::<G>(ecp_run::<G>(s, k, i), k, side),
                            cs[i],
                            k,
                        ),
                ),
                G::Scalar::modulus(),
            )
        }),
    decreases r,
{
    let q = G::Scalar::modulus();
    G::Scalar::modulus_range();
    let f = |i: int|
        suffix_product(cs, k, i + 1) * ecp_weighted(
            ecp_terms::<G>(ecp_run::<G>(s, k, i), k, side),
            cs[i],
            k,
        );
    if r > 0 {
        lemma_ecp_telescope::<G>(s, k, cs, side, r - 1);
        let prev = ecp_run::<G>(s, k, r - 1);
        let t = ecp_run::<G>(s, k, r);
        let c = cs[r - 1];
        assert(invertible(c, q));
        lemma_ecp_len::<G>(s, k, r - 1);
        lemma_ecp_round::<G>(prev, k, r - 1, side);
        let v1 = dot(prev.a, ecp_bases(prev, side));
        let v2 = dot(t.a, ecp_bases(t, side));
        let top = pow(c, k as nat);
        let w = ecp_weighted(ecp_terms::<G>(prev, k, side), c, k);
        let x = suffix_product(cs, k, r);
        lemma_eqm_mul(x, x, v2, top * v1 + w, q);
        assert(x * (top * v1 + w) == (top * x) * v1 + x * w) by (nonlinear_arith);
        let start = suffix_product(cs, k, 0) * dot(s.a, ecp_bases(s, side));
        lemma_eqm_add(suffix_product(cs, k, r - 1) * v1, start + sum(r - 1, f), x * w, x * w, q);
        assert(f(r - 1) == x * w);
    } else {
        assert(sum(0, f) == 0);
    }
}

proof fn lemma_ecp_spread<G: Group>(s: EcpState, k: int, cs: Seq<int>, z: Seq<int>, side: int, r: int)
    requires
        k >= 1,
        side == 0 || side == 1,
        s.a.len() == s.g.len() == s.c.len(),
        0 <= r <= cs.len(),
        forall|i: int|
            0 <= i < cs.len() ==> #[trigger] cs[i] == challenge::<G::Scalar>(
                ecp_round_log::<G>(ecp_run::<G>(s, k, i), k, i),
                "challenge_separator"@,
            ),
        forall|i: int| 0 <= i < cs.len() ==> invertible(#[trigger] cs[i], G::Scalar::modulus()),
    ensures
        ({
            let q = G::Scalar::modulus();
            let n = s.a.len() as int;
            let t = ecp_run::<G>(s, k, r);
            eqm(
                suffix_product(cs, k, r) * spread(z, inverses(cs, q), n, k, r, ecp_bases(t, side)),
                suffix_product(cs, k, 0) * spread(z, inverses(cs, q), n, k, 0, ecp_bases(s, side)),
                q,
            )
        }),
    decreases r,
{
    let q = G::Scalar::modulus();
    G::Scalar::modulus_range();
    let n = s.a.len() as int;
    if r > 0 {
        lemma_ecp_spread::<G>(s, k, cs, z, side, r - 1);
        lemma_ecp_len::<G>(s, k, r - 1);
        let prev = ecp_run::<G>(s, k, r - 1);
        let t = ecp_run::<G>(s, k, r);
        let c = cs[r - 1];
        assert(invertible(c, q));
        let top = pow(c, k as nat);
        let down = falling(c, k, k, q);
        assert forall|i: int| 0 <= i < k implies eqm(
            #[trigger] down[i],
            top * pow(inverses(cs, q)[r - 1], i as nat),
            q,
        ) by {
            lemma_md_range(top * pow(inv_mod(c, q), i as nat), q);
        }
        lemma_spread_step(z, inverses(cs, q), n, k, r - 1, ecp_bases(prev, side), down, top, q);
        let x = suffix_product(cs, k, r);
        let g1 = spread(z, inverses(cs, q), n, k, r - 1, ecp_bases(prev, side));
        let g2 = spread(z, inverses(cs, q), n, k, r, ecp_bases(t, side));
        lemma_eqm_mul(x, x, g2, top * g1, q);
        assert(x * (top * g1) == (top * x) * g1) by (nonlinear_arith);
    }
}

/// The cross terms of an honest proof decode to those of its run.
proof fn lemma_ecp_decoded<G: Group>(p: prove_ecp<G>, s: EcpState, k: int, rounds: int, side: int)
    requires
        k >= 1,
        side == 0 || side == 1,
        p.proves(s, k, rounds),
    ensures
        forall|r: int, x: int|
            0 <= r < rounds && 0 <= x < 2 * k - 2 ==> G::decoding(#[trigger] p.points(side)[r][x]) == Some(
                ecp_all_terms::<G>(s, k, rounds, side)[r * (2 * k - 2) + x],
            ),
{
    let w = 2 * k - 2;
    assert forall|r: int, x: int| 0 <= r < rounds && 0 <= x < w implies G::decoding(
        #[trigger] p.points(side)[r][x],
    ) == Some(ecp_all_terms::<G>(s, k, rounds, side)[r * w + x]) by {
        let t = ecp_run::<G>(s, k, r);
        assert(pairs_encode::<G>(p.A_vecs@[r]@, ecp_terms_0::<G>(t, k), ecp_terms_1::<G>(t, k)));
        assert(encodes::<G>(p.A_vecs@[r]@[x]@[0], ecp_terms_0::<G>(t, k)[x]));
        assert(encodes::<G>(p.A_vecs@[r]@[x]@[1], ecp_terms_1::<G>(t, k)[x]));
        vstd::arithmetic::div_mod::lemma_fundamental_div_mod_converse(r * w + x, w, r, x);
        assert(0 <= r * w + x < rounds * w) by (nonlinear_arith)
            requires
                0 <= r < rounds,
                0 <= x < w,
        ;
    }
}

/// Completeness of the argument for two sets of bases.
///
/// If the challenges have inverses, an honest proof has the shape that a
/// verifier expects, prover and verifier end with the same log, and the
/// coefficients that the verifier computes satisfy
/// `<z, G> = p * <a, G> + <u, A>` for either set of bases, where `A` is what
/// the cross terms of the proof decode to.
pub proof fn law_ecp_complete<G: Group>(
    p: prove_ecp<G>,
    s: EcpState,
    log: Log,
    k: int,
    rounds: int,
    side: int,
)
    requires
        k >= 1,
        2 * k <= usize::MAX,
        rounds >= 0,
        side == 0 || side == 1,
        s.a.len() == s.g.len() == s.c.len(),
        s.log == ecp_log(log, s.a.len() as int, k),
        p.proves(s, k, rounds),
        forall|r: int|
            0 <= r < rounds ==> invertible(
                #[trigger] p.challenges(log, s.a.len() as int)[r],
                G::Scalar::modulus(),
            ),
    ensures
        p.shaped(),
        p.k == k,
        p.A_vecs@.len() == rounds,
        p.fits(s.a.len() as int),
        p.log_after(log, s.a.len() as int) == ecp_run::<G>(s, k, rounds).log,
        forall|r: int, x: int|
            0 <= r < rounds && 0 <= x < 2 * k - 2 ==> G::decoding(#[trigger] p.points(side)[r][x]) == Some(
                ecp_all_terms::<G>(s, k, rounds, side)[r * (2 * k - 2) + x],
            ),
        ({
            let c = p.scalars(log, s.a.len() as int);
            let bases = if side == 0 {
                s.g
            } else {
                s.c
            };
            eqm(
                dot(c.z, bases),
                c.p * dot(s.a, bases) + dot(c.u, ecp_all_terms::<G>(s, k, rounds, side)),
                G::Scalar::modulus(),
            )
        }),
{
    let q = G::Scalar::modulus();
    G::Scalar::modulus_range();
    let n = s.a.len() as int;
    let cs = p.challenges(log, n);
    let end = ecp_run::<G>(s, k, rounds);
    let bases = ecp_bases(s, side);
    lemma_ecp_len::<G>(s, k, rounds);
    assert forall|r: int| 0 <= r < p.A_vecs@.len() implies (#[trigger] p.A_vecs@[r])@.len() >= 2 * p.k - 2 by {
        let t = ecp_run::<G>(s, k, r);
        assert(pairs_encode::<G>(p.A_vecs@[r]@, ecp_terms_0::<G>(t, k), ecp_terms_1::<G>(t, k)));
    }
    assert forall|r: int, x: int| 0 <= r < p.A_vecs@.len() && 0 <= x < 2 * p.k - 2 implies G::bytes(
        (#[trigger] p.A_vecs@[r]@[x])@[0],
    ).len() <= u32::MAX by {
        let t = ecp_run::<G>(s, k, r);
        assert(pairs_encode::<G>(p.A_vecs@[r]@, ecp_terms_0::<G>(t, k), ecp_terms_1::<G>(t, k)));
    }
    assert forall|r: int, x: int| 0 <= r < p.A_vecs@.len() && 0 <= x < 2 * p.k - 2 implies G::bytes(
        (#[trigger] p.A_vecs@[r]@[x])@[1],
    ).len() <= u32::MAX by {
        let t = ecp_run::<G>(s, k, r);
        assert(pairs_encode::<G>(p.A_vecs@[r]@, ecp_terms_0::<G>(t, k), ecp_terms_1::<G>(t, k)));
    }
    lemma_ecp_decoded::<G>(p, s, k, rounds, side);
    assert(values(p.z@).len() == end.a.len());
    lemma_ecp_logs_agree::<G>(p, s, k, rounds, rounds);
    assert forall|i: int| 0 <= i < cs.len() implies #[trigger] cs[i] == challenge::<G::Scalar>(
        ecp_round_log::<G>(ecp_run::<G>(s, k, i), k, i),
        "challenge_separator"@,
    ) by {
        lemma_ecp_logs_agree::<G>(p, s, k, rounds, i);
    }
    let z = end.a;
    let c = p.scalars(log, n);
    let prod = suffix_product(cs, k, 0);
    lemma_ecp_telescope::<G>(s, k, cs, side, rounds);
    lemma_ecp_spread::<G>(s, k, cs, z, side, rounds);
    assert(suffix_product(cs, k, rounds) == 1);
    let ws = inverses(cs, q);
    let gs = Seq::new(n as nat, |t: int| unfold(z, ws, n, k, 0, t) * prod);
    let us = Seq::new(n as nat, |t: int| unfold(z, ws, n, k, 0, t));
    assert forall|t: int| 0 <= t < n implies eqm(#[trigger] c.z[t], gs[t], q) by {
        lemma_md_range(gs[t], q);
    }
    lemma_dot_eqm(c.z, gs, bases, q);
    lemma_dot_scale(gs, us, bases, prod);
    lemma_sum_ext(n, |t: int| unfold(z, ws, n, k, 0, t) * bases[t], |i: int| us[i] * bases[i]);
    lemma_spread_end(z, ws, n, k, ecp_bases(end, side));
    let v = dot(z, ecp_bases(end, side));
    assert(1 * v == v);
    let w = 2 * k - 2;
    let flat = ecp_all_terms::<G>(s, k, rounds, side);
    let f = |i: int|
        suffix_product(cs, k, i + 1) * ecp_weighted(
            ecp_terms::<G>(ecp_run::<G>(s, k, i), k, side),
            cs[i],
            k,
        );
    let ux = Seq::new(
        (rounds * w) as nat,
        |i: int| pow(cs[i / w], ecp_exponent(k, i % w) as nat) * suffix_product(cs, k, i / w + 1),
    );
    assert(rounds * w >= 0) by (nonlinear_arith)
        requires
            rounds >= 0,
            w >= 0,
    ;
    assert forall|i: int| 0 <= i < rounds * w implies eqm(#[trigger] c.u[i], ux[i], q) by {
        lemma_md_range(ux[i], q);
    }
    assert(c.u.len() == ux.len());
    lemma_dot_eqm(c.u, ux, flat, q);
    let du = |i: int| ux[i] * flat[i];
    lemma_sum_blocks(rounds, w, du);
    let blocks = |i: int| sum(w, |j: int| du(i * w + j));
    assert forall|r: int| 0 <= r < rounds implies #[trigger] blocks(r) == f(r) by {
        let x = suffix_product(cs, k, r + 1);
        let terms = ecp_terms::<G>(ecp_run::<G>(s, k, r), k, side);
        let g = |y: int| pow(cs[r], ecp_exponent(k, y) as nat) * terms[y];
        assert forall|j: int| 0 <= j < w implies du(r * w + j) == #[trigger] g(j) * x by {
            lemma_block_index(r, j, rounds, w);
            lemma_fundamental_div_mod_converse(r * w + j, w, r, j);
            let (y, t) = (pow(cs[r], ecp_exponent(k, j) as nat), terms[j]);
            assert((y * x) * t == (y * t) * x) by (nonlinear_arith);
        }
        let b1 = |j: int| du(r * w + j);
        let b2 = |j: int| x * g(j);
        assert forall|j: int| 0 <= j < w implies #[trigger] b1(j) == b2(j) by {
            assert(du(r * w + j) == g(j) * x);
            let y = g(j);
            assert(y * x == x * y) by (nonlinear_arith);
        }
        lemma_sum_ext(w, b1, b2);
        lemma_sum_scale(w, x, g);
        lemma_sum_ext(w, |j: int| du(r * w + j), b1);
    }
    lemma_sum_ext(rounds, blocks, f);
    lemma_sum_ext(rounds * w, |i: int| ux[i] * flat[i], du);
    lemma_md_range(prod, q);
    let v0 = dot(s.a, bases);
    lemma_eqm_mul(c.p, prod, v0, v0, q);
    lemma_eqm_add(c.p * v0, prod * v0, dot(c.u, flat), sum(rounds, f), q);
}

/// A second set of bases that is too short counts as filled up with neutral
/// elements: whoever fills it up beforehand starts in the same state and makes
/// the same proof. Every round has `2k - 2` pairs, and each folding divides the
/// length of the vector by `k` and rounds up.
pub proof fn law_ecp_short_bases<G: Group>(
    p: prove_ecp<G>,
    filled: prove_ecp<G>,
    s: EcpState,
    t: EcpState,
    c: Seq<int>,
    k: int,
    rounds: int,
)
    requires
        k >= 1,
        rounds >= 0,
        s.a.len() <= s.g.len(),
        c.len() <= s.a.len(),
        s.c == at_least(c, s.a.len() as int),
        t == (EcpState { c: at_least(pad(c, s.a.len() - c.len()), s.a.len() as int), ..s }),
        p.proves(s, k, rounds),
        filled.proves(t, k, rounds),
    ensures
        s == t,
        p.k == filled.k,
        p.points(0) == filled.points(0),
        p.points(1) == filled.points(1),
        values(p.z@) == values(filled.z@),
        ecp_run::<G>(s, k, rounds).log == ecp_run::<G>(t, k, rounds).log,
        p.A_vecs@.len() == rounds,
        forall|r: int| 0 <= r < rounds ==> (#[trigger] p.A_vecs@[r])@.len() == 2 * k - 2,
        p.z@.len() == (s.a.len() + pow(k, rounds as nat) - 1) / pow(k, rounds as nat),
{
    assert(s.c =~= t.c);
    assert forall|r: int| 0 <= r < rounds implies {
        &&& (#[trigger] p.A_vecs@[r])@.len() == 2 * k - 2
        &&& p.points(0)[r] == filled.points(0)[r]
        &&& p.points(1)[r] == filled.points(1)[r]
    } by {
        let u = ecp_run::<G>(s, k, r);
        let (t0, t1) = (ecp_terms_0::<G>(u, k), ecp_terms_1::<G>(u, k));
        assert(pairs_encode::<G>(p.A_vecs@[r]@, t0, t1));
        assert(pairs_encode::<G>(filled.A_vecs@[r]@, t0, t1));
        assert forall|x: int| 0 <= x < t0.len() implies p.points(0)[r][x] == filled.points(0)[r][x] && p.points(
            1,
        )[r][x] == filled.points(1)[r][x] by {
            assert(encodes::<G>(p.A_vecs@[r]@[x]@[0], t0[x]) && encodes::<G>(p.A_vecs@[r]@[x]@[1], t1[x]));
            assert(encodes::<G>(filled.A_vecs@[r]@[x]@[0], t0[x]));
            assert(encodes::<G>(filled.A_vecs@[r]@[x]@[1], t1[x]));
        }
        assert(p.points(0)[r] =~= filled.points(0)[r]);
        assert(p.points(1)[r] =~= filled.points(1)[r]);
    }
    assert(p.points(0) =~= filled.points(0));
    assert(p.points(1) =~= filled.points(1));
    lemma_ecp_len::<G>(s, k, rounds);
    law_round_len(s.a.len() as int, k, rounds);
    assert(values(p.z@).len() == p.z@.len());
}

/// Bases that are filled up with neutral elements count only as far as they
/// were there.
pub proof fn law_filled_bases(x: Seq<int>, c: Seq<int>)
    requires
        c.len() <= x.len(),
    ensures
        dot(x, at_least(c, x.len() as int)) == dot(x.take(c.len() as int), c),
{
    let full = at_least(c, x.len() as int);
    let f = |i: int| x[i] * full[i];
    assert forall|i: int| c.len() <= i < x.len() implies #[trigger] f(i) == 0 by {
        assert(full[i] == 0);
    }
    lemma_sum_truncate(x.len() as int, c.len() as int, f);
    lemma_sum_ext(c.len() as int, f, |i: int| x.take(c.len() as int)[i] * c[i]);
}

/// Completeness of the argument where the second set of bases is too short:
/// the verifier's equation holds with as many coefficients as there are bases.
pub proof fn law_ecp_short_complete<G: Group>(
    p: prove_ecp<G>,
    s: EcpState,
    c1: Seq<int>,
    log: Log,
    k: int,
    rounds: int,
)
    requires
        k >= 1,
        2 * k <= usize::MAX,
        rounds >= 0,
        s.a.len() == s.g.len(),
        c1.len() <= s.a.len(),
        s.c == at_least(c1, s.a.len() as int),
        s.log == ecp_log(log, s.a.len() as int, k),
        p.proves(s, k, rounds),
        forall|r: int|
            0 <= r < rounds ==> invertible(
                #[trigger] p.challenges(log, s.a.len() as int)[r],
                G::Scalar::modulus(),
            ),
    ensures
        ({
            let c = p.scalars(log, s.a.len() as int);
            eqm(
                dot(c.z.take(c1.len() as int), c1),
                c.p * dot(s.a.take(c1.len() as int), c1) + dot(c.u, ecp_all_terms::<G>(s, k, rounds, 1)),
                G::Scalar::modulus(),
            )
        }),
{
    law_ecp_complete::<G>(p, s, log, k, rounds, 1);
    law_filled_bases(p.scalars(log, s.a.len() as int).z, c1);
    law_filled_bases(s.a, c1);
}

} // verus!
