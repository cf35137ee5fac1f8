//! A folding argument for the inner product of two committed vectors.

use merlin::Transcript;
use vstd::arithmetic::power::pow;
use vstd::prelude::*;
use vstd::utf8::is_ascii_chars_encode_utf8;
use crate::errors::ProofError;
use crate::folding::{
    block_inner_product, copy_slice, extend_blocks, falling, falling_powers, fold, fold_points,
    fold_scalars, folded_len, lemma_folded_len, lemma_round_len, lower, pad, pad_for, pad_points,
    pad_scalars, pairing, round_len, upper,
};
use crate::group::{Field, Group, encodes, indices, values};
use crate::modular::{group_mod, inv_mod, lemma_eqm_mul, lemma_md_range, lemma_md_small, md};
use crate::sums::{dot, lemma_sum_ext, sum};
use crate::transcript::{
    Log, TranscriptProtocol, append, append_number, append_text, challenge, challenged, commit_number,
    commit_text, transcript_log,
};
use crate::unfolding::{
    reconstruct_round_lengths, scalar_pow, scale_vec, suffix_product, suffix_products, unfold, unfold_vec,
    unfolded,
};
use crate::util::{exp_vec, inner_product, powers_of};

verus! {

broadcast use group_mod;

/// What the prover of an inner product argument holds at the start of a round.
pub struct IpaState {
    pub a: Seq<int>,
    pub b: Seq<int>,
    pub g: Seq<int>,
    pub h: Seq<int>,
    pub log: Log,
}

/// The log at the start of an inner product argument.
pub open spec fn ipa_log(log: Log, n: int, k: int) -> Log {
    append_number(
        append_number(append_text(log, "protocol-name"@, "k_bullet_delay"@), "n"@, n),
        "k"@,
        k,
    )
}

/// The log after `count` cross terms of a round were appended.
pub open spec fn ipa_absorb(log: Log, round: int, points: Seq<Seq<u8>>, count: int) -> Log
    decreases count,
{
    if count <= 0 {
        log
    } else {
        append(
            append_number(
                append_number(ipa_absorb(log, round, points, count - 1), "U_round"@, round),
                "U_index"@,
                count - 1,
            ),
            "U_point"@,
            points[count - 1],
        )
    }
}

/// The log just before the challenge of a round is drawn.
pub open spec fn before_challenge(log: Log, round: int) -> Log {
    append_number(append_text(log, "challenge_prefix"@, "c_"@), "challenge_index"@, round)
}

/// The cross terms of a round, for vectors whose length is a multiple of `k`:
/// the inner products off the diagonal, above it first.
pub open spec fn ipa_cross(
    a: Seq<int>,
    b: Seq<int>,
    g: Seq<int>,
    h: Seq<int>,
    q_index: int,
    k: int,
    m: int,
    q: int,
) -> Seq<int> {
    Seq::new(
        (2 * k - 2) as nat,
        |x: int|
            if x < k - 1 {
                ipa_upper(a, b, g, h, q_index, k, m, x + 1, q)
            } else {
                ipa_lower(a, b, g, h, q_index, k, m, x - k + 2, q)
            },
    )
}

/// The cross term for the `l`th diagonal above the main one.
pub open spec fn ipa_upper(
    a: Seq<int>,
    b: Seq<int>,
    g: Seq<int>,
    h: Seq<int>,
    q_index: int,
    k: int,
    m: int,
    l: int,
    q: int,
) -> int {
    md(upper(a, g, k, m, l) + lower(b, h, k, m, l) + q_index * upper(a, b, k, m, l), q)
}

/// The cross term for the `l`th diagonal below the main one.
pub open spec fn ipa_lower(
    a: Seq<int>,
    b: Seq<int>,
    g: Seq<int>,
    h: Seq<int>,
    q_index: int,
    k: int,
    m: int,
    l: int,
    q: int,
) -> int {
    md(lower(a, g, k, m, l) + upper(b, h, k, m, l) + q_index * lower(a, b, k, m, l), q)
}

/// The cross terms that the prover sends in a round that starts in `s`.
pub open spec fn ipa_terms<G: Group>(s: IpaState, q_index: int, k: int) -> Seq<int> {
    let n = s.a.len() as int;
    ipa_cross(
        pad_for(s.a, n, k),
        pad_for(s.b, n, k),
        pad_for(s.g, n, k),
        pad_for(s.h, n, k),
        q_index,
        k,
        folded_len(n, k),
        G::Scalar::modulus(),
    )
}

/// The encodings of a sequence of group elements.
pub open spec fn encoded<G: Group>(s: Seq<int>) -> Seq<Seq<u8>> {
    Seq::new(s.len(), |i: int| G::encoding(s[i]))
}

/// The log of a round that starts in `s`, just before its challenge is drawn.
pub open spec fn ipa_round_log<G: Group>(s: IpaState, q_index: int, k: int, round: int) -> Log {
    before_challenge(
        ipa_absorb(s.log, round, encoded::<G>(ipa_terms::<G>(s, q_index, k)), 2 * k - 2),
        round,
    )
}

/// The state after a round that starts in `s`: all four vectors are padded
/// and folded with powers of the challenge.
pub open spec fn ipa_step<G: Group>(s: IpaState, q_index: int, k: int, round: int) -> IpaState {
    let q = G::Scalar::modulus();
    let n = s.a.len() as int;
    let m = folded_len(n, k);
    let log = ipa_round_log::<G>(s, q_index, k, round);
    let c = challenge::<G::Scalar>(log, "challenge_separator"@);
    let up = powers_of(c, k, q);
    let down = falling(c, k - 1, k, q);
    IpaState {
        a: fold(pad_for(s.a, n, k), up, m, q),
        b: fold(pad_for(s.b, n, k), down, m, q),
        g: fold(pad_for(s.g, n, k), down, m, q),
        h: fold(pad_for(s.h, n, k), up, m, q),
        log: challenged(log, "challenge_separator"@),
    }
}

/// The state after `rounds` rounds.
pub open spec fn ipa_run<G: Group>(s: IpaState, q_index: int, k: int, rounds: int) -> IpaState
    decreases rounds,
{
    if rounds <= 0 {
        s
    } else {
        ipa_step::<G>(ipa_run::<G>(s, q_index, k, rounds - 1), q_index, k, rounds - 1)
    }
}

/// An inner product argument with iterative padding.
#[derive(Clone, Debug)]
pub struct prove_ipa<G: Group> {
    pub k: usize,
    /// Cross-term commitments per round.
    pub U_vecs: Vec<Vec<G::Encoding>>,
    /// Final witness vector `a`.
    pub a_final: Vec<G::Scalar>,
    /// Final witness vector `b`.
    pub b_final: Vec<G::Scalar>,
}

/// The bytes of a sequence of encodings.
pub open spec fn all_bytes<G: Group>(s: Seq<G::Encoding>) -> Seq<Seq<u8>> {
    Seq::new(s.len(), |i: int| G::bytes(s[i]))
}

/// The encodings in `s` are those of the elements of `terms`, and decode to
/// them.
pub open spec fn all_encode<G: Group>(s: Seq<G::Encoding>, terms: Seq<int>) -> bool {
    &&& s.len() == terms.len()
    &&& forall|i: int| 0 <= i < s.len() ==> encodes::<G>(#[trigger] s[i], terms[i])
}

impl<G: Group> prove_ipa<G> {
    /// The proof is the one that an honest prover who starts in `s` makes
    /// with `rounds` rounds of folding by `k`.
    pub open spec fn proves(self, s: IpaState, q_index: int, k: int, rounds: int) -> bool {
        &&& self.k == k
        &&& self.U_vecs@.len() == rounds
        &&& forall|r: int|
            0 <= r < rounds ==> all_encode::<G>(
                (#[trigger] self.U_vecs@[r])@,
                ipa_terms::<G>(ipa_run::<G>(s, q_index, k, r), q_index, k),
            )
        &&& values(self.a_final@) == ipa_run::<G>(s, q_index, k, rounds).a
        &&& values(self.b_final@) == ipa_run::<G>(s, q_index, k, rounds).b
    }
}

/// The state after `r` rounds has vectors of one length.
pub proof fn lemma_ipa_len<G: Group>(s: IpaState, q_index: int, k: int, r: int)
    requires
        k >= 1,
        s.a.len() == s.b.len() == s.g.len() == s.h.len(),
    ensures
        ipa_run::<G>(s, q_index, k, r).a.len() == round_len(s.a.len() as int, k, r),
        ipa_run::<G>(s, q_index, k, r).b.len() == round_len(s.a.len() as int, k, r),
        ipa_run::<G>(s, q_index, k, r).g.len() == round_len(s.a.len() as int, k, r),
        ipa_run::<G>(s, q_index, k, r).h.len() == round_len(s.a.len() as int, k, r),
    decreases r,
{
    if r > 0 {
        lemma_ipa_len::<G>(s, q_index, k, r - 1);
        lemma_round_len(s.a.len() as int, k, r - 1);
        lemma_folded_len(round_len(s.a.len() as int, k, r - 1), k);
    }
}

/// Sends the opening messages of an inner product argument.
fn ipa_open(transcript: &mut Transcript, n: usize, k: usize)
    ensures
        transcript_log(*final(transcript)) == ipa_log(transcript_log(*old(transcript)), n as int, k as int),
{
    proof {
        reveal_strlit("k_bullet_delay");
        is_ascii_chars_encode_utf8("k_bullet_delay"@);
    }
    commit_text(transcript, "protocol-name", "k_bullet_delay");
    commit_number(transcript, "n", n as u64);
    commit_number(transcript, "k", k as u64);
}

/// Draws the challenge of a round.
pub(crate) fn round_challenge<G: Group>(transcript: &mut Transcript, round: usize) -> (c: G::Scalar)
    ensures
        c.value() == challenge::<G::Scalar>(
            before_challenge(transcript_log(*old(transcript)), round as int),
            "challenge_separator"@,
        ),
        transcript_log(*final(transcript)) == challenged(
            before_challenge(transcript_log(*old(transcript)), round as int),
            "challenge_separator"@,
        ),
{
    proof {
        reveal_strlit("c_");
        is_ascii_chars_encode_utf8("c_"@);
    }
    commit_text(transcript, "challenge_prefix", "c_");
    commit_number(transcript, "challenge_index", round as u64);
    <Transcript as TranscriptProtocol<G>>::challenge_scalar(transcript, "challenge_separator")
}

/// Appends the first `count` cross terms of a round.
fn ipa_commit_round<G: Group>(transcript: &mut Transcript, round: usize, points: &Vec<G::Encoding>, count: usize)
    requires
        count <= points@.len(),
        forall|i: int| 0 <= i < count ==> G::bytes(#[trigger] points@[i]).len() <= u32::MAX,
    ensures
        transcript_log(*final(transcript)) == ipa_absorb(
            transcript_log(*old(transcript)),
            round as int,
            all_bytes::<G>(points@),
            count as int,
        ),
{
    let ghost log0 = transcript_log(*transcript);
    let mut idx: usize = 0;
    while idx < count
        invariant
            idx <= count <= points@.len(),
            forall|i: int| 0 <= i < count ==> G::bytes(#[trigger] points@[i]).len() <= u32::MAX,
            transcript_log(*transcript) == ipa_absorb(log0, round as int, all_bytes::<G>(points@), idx as int),
        decreases count - idx,
    {
        commit_number(transcript, "U_round", round as u64);
        commit_number(transcript, "U_index", idx as u64);
        <Transcript as TranscriptProtocol<G>>::commit_point(transcript, "U_point", &points[idx]);
        idx += 1;
    }
}

/// Computes the cross term for the `l`th diagonal above the main one.
fn ipa_upper_term<G: Group>(
    a: &Vec<G::Scalar>,
    b: &Vec<G::Scalar>,
    g: &Vec<G::Point>,
    h: &Vec<G::Point>,
    q_point: G::Point,
    k: usize,
    m: usize,
    l: usize,
) -> (r: G::Point)
    requires
        1 <= l < k,
        a@.len() == b@.len() == g@.len() == h@.len() == k * m,
    ensures
        G::index(r) == ipa_upper(
            values(a@),
            values(b@),
            indices::<G>(g@),
            indices::<G>(h@),
            G::index(q_point),
            k as int,
            m as int,
            l as int,
            G::Scalar::modulus(),
        ),
{
    let ghost q = G::Scalar::modulus();
    let ghost (av, bv, gv, hv) = (values(a@), values(b@), indices::<G>(g@), indices::<G>(h@));
    let ghost fg = |i: int| pairing(av, i, gv, i + l, m as int);
    let ghost fh = |i: int| pairing(bv, i + l, hv, i, m as int);
    let ghost fv = |i: int| pairing(av, i, bv, i + l, m as int);
    let mut v = G::Scalar::zero();
    let mut scalars: Vec<G::Scalar> = Vec::new();
    let mut points: Vec<G::Point> = Vec::new();
    proof {
        G::Scalar::modulus_range();
        lemma_md_small(0, q);
    }
    let mut i: usize = 0;
    while i < k - l
        invariant
            1 <= l < k,
            i <= k - l,
            a@.len() == b@.len() == g@.len() == h@.len() == k * m,
            q == G::Scalar::modulus(),
            q > 1,
            av == values(a@),
            bv == values(b@),
            gv == indices::<G>(g@),
            hv == indices::<G>(h@),
            fg == |i: int| pairing(av, i, gv, i + l, m as int),
            fh == |i: int| pairing(bv, i + l, hv, i, m as int),
            fv == |i: int| pairing(av, i, bv, i + l, m as int),
            v.value() == md(sum(i as int, fv), q),
            scalars@.len() == points@.len(),
            dot(values(scalars@), indices::<G>(points@)) == sum(i as int, fg) + sum(i as int, fh),
        decreases k - i,
    {
        proof {
            assert((i + 1) * m <= k * m) by (nonlinear_arith)
                requires
                    i + 1 <= k,
            ;
            assert((i + l + 1) * m <= k * m) by (nonlinear_arith)
                requires
                    i + l + 1 <= k,
            ;
        }
        v = v.plus(block_inner_product(a, i, b, i + l, m));
        extend_blocks::<G>(&mut scalars, &mut points, a, i, g, i + l, m);
        extend_blocks::<G>(&mut scalars, &mut points, b, i + l, h, i, m);
        i += 1;
    }
    let p = G::vartime_msm(&scalars, &points);
    let r = G::plus(p, G::times(q_point, v));
    proof {
        assert(Seq::new(points@.len(), |i: int| G::index(points@[i])) =~= indices::<G>(points@));
        G::index_range(q_point);
        lemma_sum_ext(k - l, fg, |i: int| pairing(av, i, gv, i + l, m as int));
        lemma_sum_ext(k - l, fh, |i: int| pairing(bv, i + l, hv, i, m as int));
        lemma_sum_ext(k - l, fv, |i: int| pairing(av, i, bv, i + l, m as int));
    }
    r
}

/// Computes the cross term for the `l`th diagonal below the main one.
fn ipa_lower_term<G: Group>(
    a: &Vec<G::Scalar>,
    b: &Vec<G::Scalar>,
    g: &Vec<G::Point>,
    h: &Vec<G::Point>,
    q_point: G::Point,
    k: usize,
    m: usize,
    l: usize,
) -> (r: G::Point)
    requires
        1 <= l < k,
        a@.len() == b@.len() == g@.len() == h@.len() == k * m,
    ensures
        G::index(r) == ipa_lower(
            values(a@),
            values(b@),
            indices::<G>(g@),
            indices::<G>(h@),
            G::index(q_point),
            k as int,
            m as int,
            l as int,
            G::Scalar::modulus(),
        ),
{
    let ghost q = G::Scalar::modulus();
    let ghost (av, bv, gv, hv) = (values(a@), values(b@), indices::<G>(g@), indices::<G>(h@));
    let ghost fg = |i: int| pairing(av, i + l, gv, i, m as int);
    let ghost fh = |i: int| pairing(bv, i, hv, i + l, m as int);
    let ghost fv = |i: int| pairing(av, i + l, bv, i, m as int);
    let mut v = G::Scalar::zero();
    let mut scalars: Vec<G::Scalar> = Vec::new();
    let mut points: Vec<G::Point> = Vec::new();
    proof {
        G::Scalar::modulus_range();
        lemma_md_small(0, q);
    }
    let mut i: usize = 0;
    while i < k - l
        invariant
            1 <= l < k,
            i <= k - l,
            a@.len() == b@.len() == g@.len() == h@.len() == k * m,
            q == G::Scalar::modulus(),
            q > 1,
            av == values(a@),
            bv == values(b@),
            gv == indices::<G>(g@),
            hv == indices::<G>(h@),
            fg == |i: int| pairing(av, i + l, gv, i, m as int),
            fh == |i: int| pairing(bv, i, hv, i + l, m as int),
            fv == |i: int| pairing(av, i + l, bv, i, m as int),
            v.value() == md(sum(i as int, fv), q),
            scalars@.len() == points@.len(),
            dot(values(scalars@), indices::<G>(points@)) == sum(i as int, fg) + sum(i as int, fh),
        decreases k - i,
    {
        proof {
            assert((i + 1) * m <= k * m) by (nonlinear_arith)
                requires
                    i + 1 <= k,
            ;
            assert((i + l + 1) * m <= k * m) by (nonlinear_arith)
                requires
                    i + l + 1 <= k,
            ;
        }
        v = v.plus(block_inner_product(a, i + l, b, i, m));
        extend_blocks::<G>(&mut scalars, &mut points, a, i + l, g, i, m);
        extend_blocks::<G>(&mut scalars, &mut points, b, i, h, i + l, m);
        i += 1;
    }
    let p = G::vartime_msm(&scalars, &points);
    let r = G::plus(p, G::times(q_point, v));
    proof {
        assert(Seq::new(points@.len(), |i: int| G::index(points@[i])) =~= indices::<G>(points@));
        G::index_range(q_point);
        lemma_sum_ext(k - l, fg, |i: int| pairing(av, i + l, gv, i, m as int));
        lemma_sum_ext(k - l, fh, |i: int| pairing(bv, i, hv, i + l, m as int));
        lemma_sum_ext(k - l, fv, |i: int| pairing(av, i + l, bv, i, m as int));
    }
    r
}

/// Computes the encoded cross terms of a round, for vectors whose length is a
/// multiple of `k`.
fn ipa_cross_terms<G: Group>(
    a: &Vec<G::Scalar>,
    b: &Vec<G::Scalar>,
    g: &Vec<G::Point>,
    h: &Vec<G::Point>,
    q_point: G::Point,
    k: usize,
    m: usize,
) -> (r: Vec<G::Encoding>)
    requires
        k >= 1,
        2 * k <= usize::MAX,
        a@.len() == b@.len() == g@.len() == h@.len() == k * m,
    ensures
        all_encode::<G>(
            r@,
            ipa_cross(
                values(a@),
                values(b@),
                indices::<G>(g@),
                indices::<G>(h@),
                G::index(q_point),
                k as int,
                m as int,
                G::Scalar::modulus(),
            ),
        ),
{
    let ghost terms = ipa_cross(
        values(a@),
        values(b@),
        indices::<G>(g@),
        indices::<G>(h@),
        G::index(q_point),
        k as int,
        m as int,
        G::Scalar::modulus(),
    );
    let mut round: Vec<G::Encoding> = Vec::new();
    let mut x: usize = 0;
    while x < 2 * k - 2
        invariant
            k >= 1,
            2 * k <= usize::MAX,
            x <= 2 * k - 2,
            a@.len() == b@.len() == g@.len() == h@.len() == k * m,
            terms == ipa_cross(
                values(a@),
                values(b@),
                indices::<G>(g@),
                indices::<G>(h@),
                G::index(q_point),
                k as int,
                m as int,
                G::Scalar::modulus(),
            ),
            round@.len() == x,
            forall|i: int| 0 <= i < x ==> encodes::<G>(#[trigger] round@[i], terms[i]),
        decreases 2 * k - 2 - x,
    {
        let p = if x < k - 1 {
            ipa_upper_term::<G>(a, b, g, h, q_point, k, m, x + 1)
        } else {
            ipa_lower_term::<G>(a, b, g, h, q_point, k, m, x - (k - 1) + 1)
        };
        round.push(G::encode(p));
        x += 1;
    }
    round
}

/// The number of entries that are missing from `n` to the next multiple of `k`.
pub(crate) fn missing(n: usize, k: usize) -> (r: usize)
    requires
        k >= 1,
    ensures
        n + r == k * folded_len(n as int, k as int),
        r < k,
{
    let rem: usize = n % k;
    proof {
        lemma_folded_len(n as int, k as int);
    }
    if rem == 0 {
        0
    } else {
        k - rem
    }
}

impl<G: Group> prove_ipa<G> {
    /// Creates an inner product argument with `num_rounds` rounds of folding
    /// by `k`. Vectors whose length is no multiple of `k` are padded with
    /// zeros in each round.
    pub fn create(
        transcript: &mut Transcript,
        k: usize,
        g_vec: &[G::Point],
        h_vec: &[G::Point],
        Q_point: G::Point,
        a_vec: &[G::Scalar],
        b_vec: &[G::Scalar],
        num_rounds: usize,
    ) -> (r: prove_ipa<G>)
        requires
            k > 1,
            2 * k <= usize::MAX,
            a_vec@.len() == b_vec@.len() == g_vec@.len() == h_vec@.len(),
            a_vec@.len() + k <= usize::MAX,
            a_vec@.len() > 0 || num_rounds == 0,
        ensures
            ({
                let s = IpaState {
                    a: values(a_vec@),
                    b: values(b_vec@),
                    g: indices::<G>(g_vec@),
                    h: indices::<G>(h_vec@),
                    log: ipa_log(transcript_log(*old(transcript)), a_vec@.len() as int, k as int),
                };
                &&& r.proves(s, G::index(Q_point), k as int, num_rounds as int)
                &&& transcript_log(*final(transcript)) == ipa_run::<G>(
                    s,
                    G::index(Q_point),
                    k as int,
                    num_rounds as int,
                ).log
            }),
    {
        let n: usize = a_vec.len();
        let ghost q = G::Scalar::modulus();
        let ghost qi = G::index(Q_point);
        let ghost s0 = IpaState {
            a: values(a_vec@),
            b: values(b_vec@),
            g: indices::<G>(g_vec@),
            h: indices::<G>(h_vec@),
            log: ipa_log(transcript_log(*transcript), n as int, k as int),
        };
        ipa_open(transcript, n, k);
        let mut g_curr: Vec<G::Point> = copy_slice(g_vec);
        let mut h_curr: Vec<G::Point> = copy_slice(h_vec);
        let mut a_curr: Vec<G::Scalar> = copy_slice(a_vec);
        let mut b_curr: Vec<G::Scalar> = copy_slice(b_vec);
        let mut U_vecs: Vec<Vec<G::Encoding>> = Vec::new();
        let mut n_j: usize = n;
        let mut j: usize = 0;
        while j < num_rounds
            invariant
                j <= num_rounds,
                k > 1,
                2 * k <= usize::MAX,
                n + k <= usize::MAX,
                q == G::Scalar::modulus(),
                qi == G::index(Q_point),
                n == s0.a.len() == s0.b.len() == s0.g.len() == s0.h.len(),
                n_j == round_len(n as int, k as int, j as int),
                n_j <= n,
                values(a_curr@) == ipa_run::<G>(s0, qi, k as int, j as int).a,
                values(b_curr@) == ipa_run::<G>(s0, qi, k as int, j as int).b,
                indices::<G>(g_curr@) == ipa_run::<G>(s0, qi, k as int, j as int).g,
                indices::<G>(h_curr@) == ipa_run::<G>(s0, qi, k as int, j as int).h,
                transcript_log(*transcript) == ipa_run::<G>(s0, qi, k as int, j as int).log,
                U_vecs@.len() == j,
                forall|r: int|
                    0 <= r < j ==> all_encode::<G>(
                        (#[trigger] U_vecs@[r])@,
                        ipa_terms::<G>(ipa_run::<G>(s0, qi, k as int, r), qi, k as int),
                    ),
            decreases num_rounds - j,
        {
            let ghost s = ipa_run::<G>(s0, qi, k as int, j as int);
            proof {
                lemma_ipa_len::<G>(s0, qi, k as int, j as int);
                lemma_folded_len(n_j as int, k as int);
            }
            let pad: usize = missing(n_j, k);
            pad_scalars(&mut a_curr, pad);
            pad_scalars(&mut b_curr, pad);
            pad_points::<G>(&mut g_curr, pad);
            pad_points::<G>(&mut h_curr, pad);
            let m_j: usize = (n_j + pad) / k;
            proof {
                vstd::arithmetic::div_mod::lemma_div_multiples_vanish(folded_len(n_j as int, k as int), k as int);
                assert(m_j == folded_len(n_j as int, k as int));
                assert(values(a_curr@).len() == k * m_j);
                assert(values(b_curr@).len() == k * m_j);
                assert(indices::<G>(g_curr@).len() == k * m_j);
                assert(indices::<G>(h_curr@).len() == k * m_j);
            }
            let round = ipa_cross_terms::<G>(&a_curr, &b_curr, &g_curr, &h_curr, Q_point, k, m_j);
            proof {
                assert(all_bytes::<G>(round@) =~= encoded::<G>(ipa_terms::<G>(s, qi, k as int)));
                assert forall|i: int| 0 <= i < round@.len() implies G::bytes(#[trigger] round@[i]).len()
                    <= u32::MAX by {}
            }
            ipa_commit_round::<G>(transcript, j, &round, 2 * k - 2);
            U_vecs.push(round);
            let c = round_challenge::<G>(transcript, j);
            let c_inv = c.invert();
            let c_powers_a = exp_vec(c, k);
            let c_powers_b = falling_powers(c, c_inv, (k - 1) as u64, k);
            proof {
                assert(values(c_powers_a@).len() == k);
                assert(values(c_powers_b@).len() == k);
            }
            let a_new = fold_scalars(&a_curr, &c_powers_a, m_j);
            let b_new = fold_scalars(&b_curr, &c_powers_b, m_j);
            let g_new = fold_points::<G>(&g_curr, &c_powers_b, m_j);
            let h_new = fold_points::<G>(&h_curr, &c_powers_a, m_j);
            a_curr = a_new;
            b_curr = b_new;
            g_curr = g_new;
            h_curr = h_new;
            n_j = m_j;
            j += 1;
        }
        prove_ipa { k, U_vecs, a_final: a_curr, b_final: b_curr }
    }
}

/// The log at the start of round `r`, for a verifier who reads the cross
/// terms `us`.
pub open spec fn ipa_verify_log(log: Log, us: Seq<Seq<Seq<u8>>>, k: int, r: int) -> Log
    decreases r,
{
    if r <= 0 {
        log
    } else {
        challenged(
            before_challenge(
                ipa_absorb(ipa_verify_log(log, us, k, r - 1), r - 1, us[r - 1], 2 * k - 2),
                r - 1,
            ),
            "challenge_separator"@,
        )
    }
}

/// The log just before the challenge of round `r` is drawn.
pub open spec fn ipa_verify_round_log(log: Log, us: Seq<Seq<Seq<u8>>>, k: int, r: int) -> Log {
    before_challenge(ipa_absorb(ipa_verify_log(log, us, k, r), r, us[r], 2 * k - 2), r)
}

/// The challenges of all rounds.
pub open spec fn ipa_challenges<G: Group>(log: Log, us: Seq<Seq<Seq<u8>>>, k: int) -> Seq<int> {
    Seq::new(
        us.len(),
        |r: int| challenge::<G::Scalar>(ipa_verify_round_log(log, us, k, r), "challenge_separator"@),
    )
}

/// The inverses of the entries of `s`.
pub open spec fn inverses(s: Seq<int>, q: int) -> Seq<int> {
    Seq::new(s.len(), |i: int| inv_mod(s[i], q))
}

/// The exponent of the challenge that belongs to cross term `x` of a round.
pub open spec fn ipa_exponent(k: int, x: int) -> int {
    if x < k - 1 {
        k - 2 - x
    } else {
        x + 1
    }
}

/// The coefficients with which the verification equation
/// `<g, G> + <h, H> + q * Q = p * P + <u, U>` holds, where `P` is the
/// commitment and `U` lists the cross terms round by round.
pub struct IpaScalars {
    pub g: Seq<int>,
    pub h: Seq<int>,
    pub q: int,
    pub p: int,
    pub u: Seq<int>,
}

/// The coefficients for the final vectors `a` and `b` and the challenges `cs`.
pub open spec fn ipa_scalars(a: Seq<int>, b: Seq<int>, cs: Seq<int>, n: int, k: int, q: int) -> IpaScalars {
    let p = suffix_product(cs, k - 1, 0);
    IpaScalars {
        g: Seq::new(n as nat, |t: int| md(unfold(a, inverses(cs, q), n, k, 0, t) * p, q)),
        h: unfolded(b, cs, n, k, q),
        q: md(dot(a, b), q),
        p: md(p, q),
        u: Seq::new(
            (cs.len() * (2 * k - 2)) as nat,
            |i: int|
                md(
                    pow(cs[i / (2 * k - 2)], ipa_exponent(k, i % (2 * k - 2)) as nat) * suffix_product(
                        cs,
                        k - 1,
                        i / (2 * k - 2) + 1,
                    ),
                    q,
                ),
        ),
    }
}

impl<G: Group> prove_ipa<G> {
    /// The bytes of the cross terms, round by round.
    pub open spec fn points(self) -> Seq<Seq<Seq<u8>>> {
        Seq::new(self.U_vecs@.len(), |r: int| all_bytes::<G>(self.U_vecs@[r]@))
    }

    /// Every round has its `2k - 2` cross terms, and no encoding is too long
    /// for a transcript.
    pub open spec fn shaped(self) -> bool {
        &&& self.k >= 1
        &&& 2 * self.k <= usize::MAX
        &&& forall|r: int| 0 <= r < self.U_vecs@.len() ==> (#[trigger] self.U_vecs@[r])@.len() >= 2 * self.k - 2
        &&& forall|r: int, x: int|
            0 <= r < self.U_vecs@.len() && 0 <= x < 2 * self.k - 2 ==> G::bytes(
                #[trigger] self.U_vecs@[r]@[x],
            ).len() <= u32::MAX
    }

    /// The final vectors have the length that `n` entries are folded to.
    pub open spec fn fits(self, n: int) -> bool {
        let m = round_len(n, self.k as int, self.U_vecs@.len() as int);
        self.a_final@.len() == m && self.b_final@.len() == m
    }

    /// The challenges for a verifier whose log is `log`.
    pub open spec fn challenges(self, log: Log, n: int) -> Seq<int> {
        ipa_challenges::<G>(ipa_log(log, n, self.k as int), self.points(), self.k as int)
    }

    /// The coefficients of the verification equation.
    pub open spec fn scalars(self, log: Log, n: int) -> IpaScalars {
        ipa_scalars(
            values(self.a_final@),
            values(self.b_final@),
            self.challenges(log, n),
            n,
            self.k as int,
            G::Scalar::modulus(),
        )
    }

    /// The log of a verifier after the argument.
    pub open spec fn log_after(self, log: Log, n: int) -> Log {
        ipa_verify_log(
            ipa_log(log, n, self.k as int),
            self.points(),
            self.k as int,
            self.U_vecs@.len() as int,
        )
    }

    /// Computes the coefficients of the verification equation: those of the
    /// bases `G` and `H`, of `Q`, of the commitment `P` and of the cross terms.
    pub fn verification_scalars(&self, n: usize, transcript: &mut Transcript) -> (r: Result<
        (Vec<G::Scalar>, Vec<G::Scalar>, G::Scalar, G::Scalar, Vec<G::Scalar>),
        ProofError,
    >)
        requires
            self.shaped(),
            n + self.k <= usize::MAX,
        ensures
            n == 0 ==> r == Err::<
                (Vec<G::Scalar>, Vec<G::Scalar>, G::Scalar, G::Scalar, Vec<G::Scalar>),
                ProofError,
            >(ProofError::InvalidGeneratorsLength),
            n > 0 && !self.fits(n as int) ==> r == Err::<
                (Vec<G::Scalar>, Vec<G::Scalar>, G::Scalar, G::Scalar, Vec<G::Scalar>),
                ProofError,
            >(ProofError::VerificationError),
            n > 0 && self.fits(n as int) ==> r is Ok,
            r is Err ==> transcript_log(*final(transcript)) == transcript_log(*old(transcript)),
            r matches Ok((s_g, s_h, s_Q, s_P, s_U)) ==> {
                let s = self.scalars(transcript_log(*old(transcript)), n as int);
                &&& values(s_g@) == s.g
                &&& values(s_h@) == s.h
                &&& s_Q.value() == s.q
                &&& s_P.value() == s.p
                &&& values(s_U@) == s.u
                &&& transcript_log(*final(transcript)) == self.log_after(
                    transcript_log(*old(transcript)),
                    n as int,
                )
            },
    {
        let k: usize = self.k;
        if n == 0 {
            return Err(ProofError::InvalidGeneratorsLength);
        }
        let d: usize = self.U_vecs.len();
        let ghost q = G::Scalar::modulus();
        let ghost log0 = ipa_log(transcript_log(*transcript), n as int, k as int);
        let ghost us = self.points();
        let ghost cs = ipa_challenges::<G>(log0, us, k as int);
        let round_lengths = reconstruct_round_lengths(n, k, d);
        let m: usize = round_lengths[d];
        if self.a_final.len() != m || self.b_final.len() != m {
            return Err(ProofError::VerificationError);
        }
        ipa_open(transcript, n, k);
        let mut challenges: Vec<G::Scalar> = Vec::new();
        let mut r: usize = 0;
        while r < d
            invariant
                r <= d,
                d == self.U_vecs@.len(),
                k == self.k,
                self.shaped(),
                us == self.points(),
                cs == ipa_challenges::<G>(log0, us, k as int),
                transcript_log(*transcript) == ipa_verify_log(log0, us, k as int, r as int),
                challenges@.len() == r,
                forall|i: int| 0 <= i < r ==> (#[trigger] challenges@[i]).value() == cs[i],
            decreases d - r,
        {
            proof {
                assert forall|x: int| 0 <= x < 2 * k - 2 implies G::bytes(
                    #[trigger] self.U_vecs@[r as int]@[x],
                ).len() <= u32::MAX by {}
                assert(us[r as int] == all_bytes::<G>(self.U_vecs@[r as int]@));
            }
            ipa_commit_round::<G>(transcript, r, &self.U_vecs[r], 2 * k - 2);
            let c = round_challenge::<G>(transcript, r);
            challenges.push(c);
            r += 1;
        }
        let mut challenges_inv: Vec<G::Scalar> = copy_slice(&challenges);
        G::Scalar::batch_invert(&mut challenges_inv);
        proof {
            G::Scalar::modulus_range();
            assert(values(challenges@) =~= cs);
            assert(values(challenges_inv@) =~= inverses(cs, q));
        }
        let (later_products, s_P) = suffix_products(&challenges, (k - 1) as u64);
        let s_g_unscaled = unfold_vec(&self.a_final, &challenges_inv, &round_lengths, k);
        let s_g = scale_vec(&s_g_unscaled, s_P);
        let s_h = unfold_vec(&self.b_final, &challenges, &round_lengths, k);
        let s_Q = inner_product(&self.a_final, &self.b_final);
        let ghost s = ipa_scalars(values(self.a_final@), values(self.b_final@), cs, n as int, k as int, q);
        proof {
            let p = suffix_product(cs, k - 1, 0);
            assert(values(s_g_unscaled@).len() == n);
            assert forall|t: int| 0 <= t < n implies (#[trigger] s_g@[t]).value() == s.g[t] by {
                let x = unfold(values(self.a_final@), inverses(cs, q), n as int, k as int, 0, t);
                assert(s_g_unscaled@[t].value() == values(s_g_unscaled@)[t]);
                lemma_md_range(x, q);
                lemma_md_range(p, q);
                lemma_eqm_mul(md(x, q), x, md(p, q), p, q);
            }
            assert(values(s_g@) =~= s.g);
        }
        let mut s_U: Vec<G::Scalar> = Vec::new();
        let mut r: usize = 0;
        while r < d
            invariant
                r <= d,
                d == cs.len(),
                k >= 1,
                2 * k <= usize::MAX,
                q == G::Scalar::modulus(),
                q > 1,
                values(challenges@) == cs,
                later_products@.len() == d,
                forall|i: int|
                    0 <= i < d ==> (#[trigger] later_products@[i]).value() == md(suffix_product(cs, k - 1, i + 1), q),
                s == ipa_scalars(values(self.a_final@), values(self.b_final@), cs, n as int, k as int, q),
                s_U@.len() == r * (2 * k - 2),
                forall|i: int| 0 <= i < s_U@.len() ==> (#[trigger] s_U@[i]).value() == s.u[i],
            decreases d - r,
        {
            let c_r = challenges[r];
            let suffix_prod = later_products[r];
            let ghost w = 2 * k - 2;
            proof {
                assert(c_r.value() == values(challenges@)[r as int]);
                assert((r + 1) * w == r * w + w) by (nonlinear_arith);
                assert((r + 1) * w <= d * w) by (nonlinear_arith)
                    requires
                        r + 1 <= d,
                        w >= 0,
                ;
            }
            let mut x: usize = 0;
            while x < 2 * k - 2
                invariant
                    r < d,
                    d == cs.len(),
                    k >= 1,
                    2 * k <= usize::MAX,
                    w == 2 * k - 2,
                    x <= w,
                    (r + 1) * w == r * w + w,
                    (r + 1) * w <= d * w,
                    q == G::Scalar::modulus(),
                    q > 1,
                    c_r.value() == cs[r as int],
                    suffix_prod.value() == md(suffix_product(cs, k - 1, r + 1), q),
                    s == ipa_scalars(values(self.a_final@), values(self.b_final@), cs, n as int, k as int, q),
                    s_U@.len() == r * w + x,
                    forall|i: int| 0 <= i < s_U@.len() ==> (#[trigger] s_U@[i]).value() == s.u[i],
                decreases w - x,
            {
                let exp: usize = if x < k - 1 { k - 2 - x } else { x + 1 };
                s_U.push(scalar_pow(c_r, exp as u64).times(suffix_prod));
                proof {
                    vstd::arithmetic::div_mod::lemma_fundamental_div_mod_converse(
                        r * w + x,
                        w,
                        r as int,
                        x as int,
                    );
                    let i = r * w + x;
                    assert(s_U@[i].value() == s.u[i]);
                }
                x += 1;
            }
            r += 1;
        }
        assert(values(s_U@) =~= s.u);
        Ok((s_g, s_h, s_Q, s_P, s_U))
    }
}

} // verus!
