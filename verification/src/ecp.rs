//! A folding argument for one vector that is committed to under two sets of
//! bases.

use merlin::Transcript;
use vstd::arithmetic::power::pow;
use vstd::prelude::*;
use vstd::utf8::is_ascii_chars_encode_utf8;
use crate::errors::ProofError;
use crate::folding::{
    copy_slice, extend_blocks, falling, falling_powers, fold, fold_points, fold_scalars, folded_len,
    lemma_folded_len, lemma_round_len, lower, pad, pad_for, pad_points, pad_scalars, pairing, round_len,
    upper,
};
use crate::group::{Field, Group, encodes, indices, values};
use crate::ipa::{before_challenge, encoded, inverses, missing, round_challenge};
use crate::modular::{group_mod, lemma_eqm_mul, lemma_md_range, md};
use crate::sums::{dot, lemma_sum_ext, sum};
use crate::transcript::{
    Log, TranscriptProtocol, append, append_number, append_text, challenge, challenged, commit_number,
    commit_text, transcript_log,
};
use crate::unfolding::{
    reconstruct_round_lengths, scalar_pow, scale_vec, suffix_product, suffix_products, unfold, unfold_vec,
};
use crate::util::{exp_vec, powers_of};

verus! {

broadcast use group_mod;

/// What the prover holds at the start of a round: the vector `a` and the two
/// sets of bases.
pub struct EcpState {
    pub a: Seq<int>,
    pub g: Seq<int>,
    pub c: Seq<int>,
    pub log: Log,
}

/// The log at the start of the argument.
pub open spec fn ecp_log(log: Log, n: int, k: int) -> Log {
    append_number(
        append_number(append_text(log, "protocol-name"@, "k_ipp_delay_2"@), "n"@, n),
        "k"@,
        k,
    )
}

/// The log after `count` pairs of cross terms of a round were appended.
pub open spec fn ecp_absorb(log: Log, round: int, p0: Seq<Seq<u8>>, p1: Seq<Seq<u8>>, count: int) -> Log
    decreases count,
{
    if count <= 0 {
        log
    } else {
        append(
            append(
                append_number(
                    append_number(ecp_absorb(log, round, p0, p1, count - 1), "A_round"@, round),
                    "A_index"@,
                    count - 1,
                ),
                "A_point_0"@,
                p0[count - 1],
            ),
            "A_point_1"@,
            p1[count - 1],
        )
    }
}

/// The cross terms of a round for one set of bases, for vectors whose length
/// is a multiple of `k`: the inner products off the diagonal, from the upper
/// right corner to the lower left one.
pub open spec fn ecp_cross(a: Seq<int>, x: Seq<int>, k: int, m: int, q: int) -> Seq<int> {
    Seq::new(
        (2 * k - 2) as nat,
        |i: int|
            if i < k - 1 {
                md(upper(a, x, k, m, k - 1 - i), q)
            } else {
                md(lower(a, x, k, m, i - k + 2), q)
            },
    )
}

/// The cross terms under the first set of bases in a round that starts in `s`.
pub open spec fn ecp_terms_0<G: Group>(s: EcpState, k: int) -> Seq<int> {
    let n = s.a.len() as int;
    ecp_cross(pad_for(s.a, n, k), pad_for(s.g, n, k), k, folded_len(n, k), G::Scalar::modulus())
}

/// The cross terms under the second set of bases in a round that starts in `s`.
pub open spec fn ecp_terms_1<G: Group>(s: EcpState, k: int) -> Seq<int> {
    let n = s.a.len() as int;
    ecp_cross(pad_for(s.a, n, k), pad_for(s.c, n, k), k, folded_len(n, k), G::Scalar::modulus())
}

/// The log of a round that starts in `s`, just before its challenge is drawn.
pub open spec fn ecp_round_log<G: Group>(s: EcpState, k: int, round: int) -> Log {
    before_challenge(
        ecp_absorb(
            s.log,
            round,
            encoded::<G>(ecp_terms_0::<G>(s, k)),
            encoded::<G>(ecp_terms_1::<G>(s, k)),
            2 * k - 2,
        ),
        round,
    )
}

/// The state after a round that starts in `s`.
pub open spec fn ecp_step<G: Group>(s: EcpState, k: int, round: int) -> EcpState {
    let q = G::Scalar::modulus();
    let n = s.a.len() as int;
    let m = folded_len(n, k);
    let log = ecp_round_log::<G>(s, k, round);
    let c = challenge::<G::Scalar>(log, "challenge_separator"@);
    EcpState {
        a: fold(pad_for(s.a, n, k), powers_of(c, k, q), m, q),
        g: fold(pad_for(s.g, n, k), falling(c, k, k, q), m, q),
        c: fold(pad_for(s.c, n, k), falling(c, k, k, q), m, q),
        log: challenged(log, "challenge_separator"@),
    }
}

/// The state after `rounds` rounds.
pub open spec fn ecp_run<G: Group>(s: EcpState, k: int, rounds: int) -> EcpState
    decreases rounds,
{
    if rounds <= 0 {
        s
    } else {
        ecp_step::<G>(ecp_run::<G>(s, k, rounds - 1), k, rounds - 1)
    }
}

/// `s`, with zeros up to the length `n` if it is shorter.
pub open spec fn at_least(s: Seq<int>, n: int) -> Seq<int> {
    if s.len() < n {
        pad(s, n - s.len())
    } else {
        s
    }
}

/// A folding argument with iterative padding for one vector under two sets of
/// bases.
#[derive(Clone, Debug)]
pub struct prove_ecp<G: Group> {
    pub k: usize,
    /// Pairs of cross-term commitments per round.
    pub A_vecs: Vec<Vec<[G::Encoding; 2]>>,
    /// Final witness vector.
    pub z: Vec<G::Scalar>,
}

/// The bytes of one side of a sequence of pairs of encodings.
pub open spec fn side_bytes<G: Group>(s: Seq<[G::Encoding; 2]>, side: int) -> Seq<Seq<u8>> {
    Seq::new(s.len(), |i: int| G::bytes(s[i]@[side]))
}

/// The pairs in `s` are the encodings of the elements of `t0` and `t1`, and
/// decode to them.
pub open spec fn pairs_encode<G: Group>(s: Seq<[G::Encoding; 2]>, t0: Seq<int>, t1: Seq<int>) -> bool {
    &&& s.len() == t0.len()
    &&& s.len() == t1.len()
    &&& forall|i: int| 0 <= i < s.len() ==> encodes::<G>((#[trigger] s[i])@[0], t0[i])
    &&& forall|i: int| 0 <= i < s.len() ==> encodes::<G>((#[trigger] s[i])@[1], t1[i])
}

/// The vectors of the state after `r` rounds are long enough.
pub proof fn lemma_ecp_len<G: Group>(s: EcpState, k: int, r: int)
    requires
        k >= 1,
        s.a.len() <= s.g.len(),
        s.a.len() <= s.c.len(),
    ensures
        ecp_run::<G>(s, k, r).a.len() == round_len(s.a.len() as int, k, r),
        ecp_run::<G>(s, k, r).a.len() <= ecp_run::<G>(s, k, r).g.len(),
        ecp_run::<G>(s, k, r).a.len() <= ecp_run::<G>(s, k, r).c.len(),
        r > 0 ==> ecp_run::<G>(s, k, r).g.len() == ecp_run::<G>(s, k, r).a.len(),
        r > 0 ==> ecp_run::<G>(s, k, r).c.len() == ecp_run::<G>(s, k, r).a.len(),
    decreases r,
{
    if r > 0 {
        lemma_ecp_len::<G>(s, k, r - 1);
        lemma_round_len(s.a.len() as int, k, r - 1);
        lemma_folded_len(round_len(s.a.len() as int, k, r - 1), k);
    }
}

/// Sends the opening messages.
fn ecp_open(transcript: &mut Transcript, n: usize, k: usize)
    ensures
        transcript_log(*final(transcript)) == ecp_log(transcript_log(*old(transcript)), n as int, k as int),
{
    proof {
        reveal_strlit("k_ipp_delay_2");
        is_ascii_chars_encode_utf8("k_ipp_delay_2"@);
    }
    commit_text(transcript, "protocol-name", "k_ipp_delay_2");
    commit_number(transcript, "n", n as u64);
    commit_number(transcript, "k", k as u64);
}

/// Appends the first `count` pairs of cross terms of a round.
fn ecp_commit_round<G: Group>(
    transcript: &mut Transcript,
    round: usize,
    pairs: &Vec<[G::Encoding; 2]>,
    count: usize,
)
    requires
        count <= pairs@.len(),
        forall|i: int| 0 <= i < count ==> G::bytes((#[trigger] pairs@[i])@[0]).len() <= u32::MAX,
        forall|i: int| 0 <= i < count ==> G::bytes((#[trigger] pairs@[i])@[1]).len() <= u32::MAX,
    ensures
        transcript_log(*final(transcript)) == ecp_absorb(
            transcript_log(*old(transcript)),
            round as int,
            side_bytes::<G>(pairs@, 0),
            side_bytes::<G>(pairs@, 1),
            count as int,
        ),
{
    let ghost log0 = transcript_log(*transcript);
    let mut idx: usize = 0;
    while idx < count
        invariant
            idx <= count <= pairs@.len(),
            forall|i: int| 0 <= i < count ==> G::bytes((#[trigger] pairs@[i])@[0]).len() <= u32::MAX,
            forall|i: int| 0 <= i < count ==> G::bytes((#[trigger] pairs@[i])@[1]).len() <= u32::MAX,
            transcript_log(*transcript) == ecp_absorb(
                log0,
                round as int,
                side_bytes::<G>(pairs@, 0),
                side_bytes::<G>(pairs@, 1),
                idx as int,
            ),
        decreases count - idx,
    {
        commit_number(transcript, "A_round", round as u64);
        commit_number(transcript, "A_index", idx as u64);
        let pair = &pairs[idx];
        <Transcript as TranscriptProtocol<G>>::commit_point(transcript, "A_point_0", &pair[0]);
        <Transcript as TranscriptProtocol<G>>::commit_point(transcript, "A_point_1", &pair[1]);
        idx += 1;
    }
}

/// Computes the cross term `i` of a round for one set of bases.
fn ecp_term<G: Group>(a: &Vec<G::Scalar>, x: &Vec<G::Point>, k: usize, m: usize, i: usize) -> (r: G::Point)
    requires
        1 <= k,
        i < 2 * k - 2,
        2 * k <= usize::MAX,
        k * m <= a@.len(),
        k * m <= x@.len(),
    ensures
        G::index(r) == ecp_cross(
            values(a@),
            indices::<G>(x@),
            k as int,
            m as int,
            G::Scalar::modulus(),
        )[i as int],
{
    let ghost (av, xv) = (values(a@), indices::<G>(x@));
    let above: bool = i < k - 1;
    let l: usize = if above { k - 1 - i } else { i - (k - 1) + 1 };
    let ghost fu = |t: int| pairing(av, t, xv, t + l, m as int);
    let ghost fl = |t: int| pairing(av, t + l, xv, t, m as int);
    let mut scalars: Vec<G::Scalar> = Vec::new();
    let mut points: Vec<G::Point> = Vec::new();
    let mut t: usize = 0;
    while t < k - l
        invariant
            1 <= l < k,
            t <= k - l,
            k * m <= a@.len(),
            k * m <= x@.len(),
            av == values(a@),
            xv == indices::<G>(x@),
            fu == |t: int| pairing(av, t, xv, t + l, m as int),
            fl == |t: int| pairing(av, t + l, xv, t, m as int),
            scalars@.len() == points@.len(),
            above ==> dot(values(scalars@), indices::<G>(points@)) == sum(t as int, fu),
            !above ==> dot(values(scalars@), indices::<G>(points@)) == sum(t as int, fl),
        decreases k - t,
    {
        proof {
            assert((t + 1) * m <= k * m) by (nonlinear_arith)
                requires
                    t + 1 <= k,
            ;
            assert((t + l + 1) * m <= k * m) by (nonlinear_arith)
                requires
                    t + l + 1 <= k,
            ;
        }
        if above {
            extend_blocks::<G>(&mut scalars, &mut points, a, t, x, t + l, m);
        } else {
            extend_blocks::<G>(&mut scalars, &mut points, a, t + l, x, t, m);
        }
        t += 1;
    }
    proof {
        assert(Seq::new(points@.len(), |i: int| G::index(points@[i])) =~= indices::<G>(points@));
        lemma_sum_ext(k - l, fu, |i: int| pairing(av, i, xv, i + l, m as int));
        lemma_sum_ext(k - l, fl, |i: int| pairing(av, i + l, xv, i, m as int));
    }
    G::vartime_msm(&scalars, &points)
}

/// Computes the encoded pairs of cross terms of a round.
fn ecp_cross_terms<G: Group>(
    a: &Vec<G::Scalar>,
    g: &Vec<G::Point>,
    c: &Vec<G::Point>,
    k: usize,
    m: usize,
) -> (r: Vec<[G::Encoding; 2]>)
    requires
        1 <= k,
        2 * k <= usize::MAX,
        k * m <= a@.len(),
        k * m <= g@.len(),
        k * m <= c@.len(),
    ensures
        pairs_encode::<G>(
            r@,
            ecp_cross(values(a@), indices::<G>(g@), k as int, m as int, G::Scalar::modulus()),
            ecp_cross(values(a@), indices::<G>(c@), k as int, m as int, G::Scalar::modulus()),
        ),
{
    let ghost q = G::Scalar::modulus();
    let ghost t0 = ecp_cross(values(a@), indices::<G>(g@), k as int, m as int, q);
    let ghost t1 = ecp_cross(values(a@), indices::<G>(c@), k as int, m as int, q);
    let mut round: Vec<[G::Encoding; 2]> = Vec::new();
    let mut x: usize = 0;
    while x < 2 * k - 2
        invariant
            1 <= k,
            2 * k <= usize::MAX,
            x <= 2 * k - 2,
            k * m <= a@.len(),
            k * m <= g@.len(),
            k * m <= c@.len(),
            q == G::Scalar::modulus(),
            t0 == ecp_cross(values(a@), indices::<G>(g@), k as int, m as int, q),
            t1 == ecp_cross(values(a@), indices::<G>(c@), k as int, m as int, q),
            round@.len() == x,
            forall|i: int| 0 <= i < x ==> encodes::<G>((#[trigger] round@[i])@[0], t0[i]),
            forall|i: int| 0 <= i < x ==> encodes::<G>((#[trigger] round@[i])@[1], t1[i]),
        decreases 2 * k - 2 - x,
    {
        let p0 = ecp_term::<G>(a, g, k, m, x);
        let p1 = ecp_term::<G>(a, c, k, m, x);
        round.push([G::encode(p0), G::encode(p1)]);
        x += 1;
    }
    round
}

impl<G: Group> prove_ecp<G> {
    /// The proof is the one that an honest prover who starts in `s` makes
    /// with `rounds` rounds of folding by `k`.
    pub open spec fn proves(self, s: EcpState, k: int, rounds: int) -> bool {
        &&& self.k == k
        &&& self.A_vecs@.len() == rounds
        &&& forall|r: int|
            0 <= r < rounds ==> pairs_encode::<G>(
                (#[trigger] self.A_vecs@[r])@,
                ecp_terms_0::<G>(ecp_run::<G>(s, k, r), k),
                ecp_terms_1::<G>(ecp_run::<G>(s, k, r), k),
            )
        &&& values(self.z@) == ecp_run::<G>(s, k, rounds).a
    }

    /// Creates the argument with `num_rounds` rounds of folding by `k`. If
    /// `C1_vec` is shorter than `a_vec` it is filled up with neutral elements.
    pub fn create(
        transcript: &mut Transcript,
        k: usize,
        G_vec: &[G::Point],
        C1_vec: &[G::Point],
        a_vec: &[G::Scalar],
        num_rounds: usize,
    ) -> (r: prove_ecp<G>)
        requires
            num_rounds > 0 ==> k >= 1 && a_vec@.len() > 0,
            2 * k <= usize::MAX,
            G_vec@.len() >= a_vec@.len(),
            a_vec@.len() + k <= usize::MAX,
        ensures
            ({
                let s = EcpState {
                    a: values(a_vec@),
                    g: indices::<G>(G_vec@),
                    c: at_least(indices::<G>(C1_vec@), a_vec@.len() as int),
                    log: ecp_log(transcript_log(*old(transcript)), a_vec@.len() as int, k as int),
                };
                &&& r.proves(s, k as int, num_rounds as int)
                &&& transcript_log(*final(transcript)) == ecp_run::<G>(s, k as int, num_rounds as int).log
            }),
    {
        let n: usize = a_vec.len();
        let ghost q = G::Scalar::modulus();
        let ghost s0 = EcpState {
            a: values(a_vec@),
            g: indices::<G>(G_vec@),
            c: at_least(indices::<G>(C1_vec@), n as int),
            log: ecp_log(transcript_log(*transcript), n as int, k as int),
        };
        let mut a_curr: Vec<G::Scalar> = copy_slice(a_vec);
        let mut G_curr: Vec<G::Point> = copy_slice(G_vec);
        let mut C1_curr: Vec<G::Point> = copy_slice(C1_vec);
        if C1_curr.len() < n {
            let short: usize = n - C1_curr.len();
            pad_points::<G>(&mut C1_curr, short);
        }
        ecp_open(transcript, n, k);
        let mut A_vecs: Vec<Vec<[G::Encoding; 2]>> = Vec::new();
        let mut n_j: usize = n;
        let mut j: usize = 0;
        while j < num_rounds
            invariant
                j <= num_rounds,
                num_rounds > 0 ==> k >= 1,
                2 * k <= usize::MAX,
                n + k <= usize::MAX,
                q == G::Scalar::modulus(),
                n == s0.a.len(),
                n <= s0.g.len(),
                n <= s0.c.len(),
                n_j == round_len(n as int, k as int, j as int),
                n_j <= n,
                values(a_curr@) == ecp_run::<G>(s0, k as int, j as int).a,
                indices::<G>(G_curr@) == ecp_run::<G>(s0, k as int, j as int).g,
                indices::<G>(C1_curr@) == ecp_run::<G>(s0, k as int, j as int).c,
                transcript_log(*transcript) == ecp_run::<G>(s0, k as int, j as int).log,
                A_vecs@.len() == j,
                forall|r: int|
                    0 <= r < j ==> pairs_encode::<G>(
                        (#[trigger] A_vecs@[r])@,
                        ecp_terms_0::<G>(ecp_run::<G>(s0, k as int, r), k as int),
                        ecp_terms_1::<G>(ecp_run::<G>(s0, k as int, r), k as int),
                    ),
            decreases num_rounds - j,
        {
            let ghost s = ecp_run::<G>(s0, k as int, j as int);
            proof {
                lemma_ecp_len::<G>(s0, k as int, j as int);
                lemma_folded_len(n_j as int, k as int);
            }
            let pad: usize = missing(n_j, k);
            pad_scalars(&mut a_curr, pad);
            pad_points::<G>(&mut G_curr, pad);
            pad_points::<G>(&mut C1_curr, pad);
            let m_j: usize = (n_j + pad) / k;
            proof {
                vstd::arithmetic::div_mod::lemma_div_multiples_vanish(folded_len(n_j as int, k as int), k as int);
                assert(m_j == folded_len(n_j as int, k as int));
                assert(values(a_curr@).len() == k * m_j);
                assert(indices::<G>(G_curr@).len() >= k * m_j);
                assert(indices::<G>(C1_curr@).len() >= k * m_j);
            }
            let round = ecp_cross_terms::<G>(&a_curr, &G_curr, &C1_curr, k, m_j);
            proof {
                assert(side_bytes::<G>(round@, 0) =~= encoded::<G>(ecp_terms_0::<G>(s, k as int)));
                assert(side_bytes::<G>(round@, 1) =~= encoded::<G>(ecp_terms_1::<G>(s, k as int)));
                assert forall|i: int| 0 <= i < round@.len() implies G::bytes((#[trigger] round@[i])@[0]).len()
                    <= u32::MAX by {}
                assert forall|i: int| 0 <= i < round@.len() implies G::bytes((#[trigger] round@[i])@[1]).len()
                    <= u32::MAX by {}
            }
            ecp_commit_round::<G>(transcript, j, &round, 2 * k - 2);
            A_vecs.push(round);
            let c = round_challenge::<G>(transcript, j);
            let c_powers_a = exp_vec(c, k);
            let c_inv = c.invert();
            let c_powers_bases = falling_powers(c, c_inv, k as u64, k);
            proof {
                assert(values(c_powers_a@).len() == k);
                assert(values(c_powers_bases@).len() == k);
            }
            let a_new = fold_scalars(&a_curr, &c_powers_a, m_j);
            let G_new = fold_points::<G>(&G_curr, &c_powers_bases, m_j);
            let C1_new = fold_points::<G>(&C1_curr, &c_powers_bases, m_j);
            a_curr = a_new;
            G_curr = G_new;
            C1_curr = C1_new;
            n_j = m_j;
            j += 1;
        }
        prove_ecp { k, A_vecs, z: a_curr }
    }
}

/// The log at the start of round `r`, for a verifier who reads the pairs of
/// cross terms `p0`, `p1`.
pub open spec fn ecp_verify_log(
    log: Log,
    p0: Seq<Seq<Seq<u8>>>,
    p1: Seq<Seq<Seq<u8>>>,
    k: int,
    r: int,
) -> Log
    decreases r,
{
    if r <= 0 {
        log
    } else {
        challenged(
            before_challenge(
                ecp_absorb(
                    ecp_verify_log(log, p0, p1, k, r - 1),
                    r - 1,
                    p0[r - 1],
                    p1[r - 1],
                    2 * k - 2,
                ),
                r - 1,
            ),
            "challenge_separator"@,
        )
    }
}

/// The log just before the challenge of round `r` is drawn.
pub open spec fn ecp_verify_round_log(
    log: Log,
    p0: Seq<Seq<Seq<u8>>>,
    p1: Seq<Seq<Seq<u8>>>,
    k: int,
    r: int,
) -> Log {
    before_challenge(ecp_absorb(ecp_verify_log(log, p0, p1, k, r), r, p0[r], p1[r], 2 * k - 2), r)
}

/// The challenges of all rounds.
pub open spec fn ecp_challenges<G: Group>(
    log: Log,
    p0: Seq<Seq<Seq<u8>>>,
    p1: Seq<Seq<Seq<u8>>>,
    k: int,
) -> Seq<int> {
    Seq::new(
        p0.len(),
        |r: int| challenge::<G::Scalar>(ecp_verify_round_log(log, p0, p1, k, r), "challenge_separator"@),
    )
}

/// The exponent of the challenge that belongs to cross term `x` of a round.
pub open spec fn ecp_exponent(k: int, x: int) -> int {
    if x < k - 1 {
        x + 1
    } else {
        x + 2
    }
}

/// The coefficients with which the verification equation
/// `<z, G> = p * P + <u, A>` holds for either set of bases, where `P` is the
/// commitment and `A` lists the cross terms round by round.
pub struct EcpScalars {
    pub z: Seq<int>,
    pub p: int,
    pub u: Seq<int>,
}

/// The coefficients for the final vector `z` and the challenges `cs`.
pub open spec fn ecp_scalars(z: Seq<int>, cs: Seq<int>, n: int, k: int, q: int) -> EcpScalars {
    let p = suffix_product(cs, k, 0);
    EcpScalars {
        z: Seq::new(n as nat, |t: int| md(unfold(z, inverses(cs, q), n, k, 0, t) * p, q)),
        p: md(p, q),
        u: Seq::new(
            (cs.len() * (2 * k - 2)) as nat,
            |i: int|
                md(
                    pow(cs[i / (2 * k - 2)], ecp_exponent(k, i % (2 * k - 2)) as nat) * suffix_product(
                        cs,
                        k,
                        i / (2 * k - 2) + 1,
                    ),
                    q,
                ),
        ),
    }
}

impl<G: Group> prove_ecp<G> {
    /// The bytes of one side of the cross terms, round by round.
    pub open spec fn points(self, side: int) -> Seq<Seq<Seq<u8>>> {
        Seq::new(self.A_vecs@.len(), |r: int| side_bytes::<G>(self.A_vecs@[r]@, side))
    }

    /// Every round has its `2k - 2` pairs of cross terms, and no encoding is
    /// too long for a transcript.
    pub open spec fn shaped(self) -> bool {
        &&& self.k >= 1
        &&& 2 * self.k <= usize::MAX
        &&& forall|r: int| 0 <= r < self.A_vecs@.len() ==> (#[trigger] self.A_vecs@[r])@.len() >= 2 * self.k - 2
        &&& forall|r: int, x: int|
            0 <= r < self.A_vecs@.len() && 0 <= x < 2 * self.k - 2 ==> G::bytes(
                (#[trigger] self.A_vecs@[r]@[x])@[0],
            ).len() <= u32::MAX
        &&& forall|r: int, x: int|
            0 <= r < self.A_vecs@.len() && 0 <= x < 2 * self.k - 2 ==> G::bytes(
                (#[trigger] self.A_vecs@[r]@[x])@[1],
            ).len() <= u32::MAX
    }

    /// The final vector has the length that `n` entries are folded to.
    pub open spec fn fits(self, n: int) -> bool {
        self.z@.len() == round_len(n, self.k as int, self.A_vecs@.len() as int)
    }

    /// The challenges for a verifier whose log is `log`.
    pub open spec fn challenges(self, log: Log, n: int) -> Seq<int> {
        ecp_challenges::<G>(ecp_log(log, n, self.k as int), self.points(0), self.points(1), self.k as int)
    }

    /// The coefficients of the verification equation.
    pub open spec fn scalars(self, log: Log, n: int) -> EcpScalars {
        ecp_scalars(values(self.z@), self.challenges(log, n), n, self.k as int, G::Scalar::modulus())
    }

    /// The log of a verifier after the argument.
    pub open spec fn log_after(self, log: Log, n: int) -> Log {
        ecp_verify_log(
            ecp_log(log, n, self.k as int),
            self.points(0),
            self.points(1),
            self.k as int,
            self.A_vecs@.len() as int,
        )
    }

    /// Computes the coefficients of the verification equation: those of the
    /// bases, of the commitment and of the cross terms.
    pub fn verification_scalars(&self, n: usize, transcript: &mut Transcript) -> (r: Result<
        (Vec<G::Scalar>, G::Scalar, Vec<G::Scalar>),
        ProofError,
    >)
        requires
            self.shaped(),
            n + self.k <= usize::MAX,
        ensures
            !self.fits(n as int) ==> r == Err::<(Vec<G::Scalar>, G::Scalar, Vec<G::Scalar>), ProofError>(
                ProofError::VerificationError,
            ),
            self.fits(n as int) ==> r is Ok,
            r is Err ==> transcript_log(*final(transcript)) == transcript_log(*old(transcript)),
            r matches Ok((z_s, s_P, s_A)) ==> {
                let s = self.scalars(transcript_log(*old(transcript)), n as int);
                &&& values(z_s@) == s.z
                &&& s_P.value() == s.p
                &&& values(s_A@) == s.u
                &&& transcript_log(*final(transcript)) == self.log_after(
                    transcript_log(*old(transcript)),
                    n as int,
                )
            },
    {
        let k: usize = self.k;
        let d: usize = self.A_vecs.len();
        let ghost q = G::Scalar::modulus();
        let ghost log0 = ecp_log(transcript_log(*transcript), n as int, k as int);
        let ghost (p0, p1) = (self.points(0), self.points(1));
        let ghost cs = ecp_challenges::<G>(log0, p0, p1, k as int);
        let round_lengths = reconstruct_round_lengths(n, k, d);
        let m: usize = round_lengths[d];
        if self.z.len() != m {
            return Err(ProofError::VerificationError);
        }
        ecp_open(transcript, n, k);
        let mut challenges: Vec<G::Scalar> = Vec::new();
        let mut r: usize = 0;
        while r < d
            invariant
                r <= d,
                d == self.A_vecs@.len(),
                k == self.k,
                self.shaped(),
                p0 == self.points(0),
                p1 == self.points(1),
                cs == ecp_challenges::<G>(log0, p0, p1, k as int),
                transcript_log(*transcript) == ecp_verify_log(log0, p0, p1, k as int, r as int),
                challenges@.len() == r,
                forall|i: int| 0 <= i < r ==> (#[trigger] challenges@[i]).value() == cs[i],
            decreases d - r,
        {
            proof {
                assert forall|x: int| 0 <= x < 2 * k - 2 implies G::bytes(
                    (#[trigger] self.A_vecs@[r as int]@[x])@[0],
                ).len() <= u32::MAX by {}
                assert forall|x: int| 0 <= x < 2 * k - 2 implies G::bytes(
                    (#[trigger] self.A_vecs@[r as int]@[x])@[1],
                ).len() <= u32::MAX by {}
            }
            ecp_commit_round::<G>(transcript, r, &self.A_vecs[r], 2 * k - 2);
            let c = round_challenge::<G>(transcript, r);
            challenges.push(c);
            r += 1;
        }
        let mut challenges_inv: Vec<G::Scalar> = copy_slice(&challenges);
        G::Scalar::batch_invert(&mut challenges_inv);
        proof {
            G::Scalar::modulus_range();
            assert(values(challenges@) =~= cs);
            assert(values(challenges_inv@) =~= inverses(cs, q));
        }
        let (later_products, s_P) = suffix_products(&challenges, k as u64);
        let z_unscaled = unfold_vec(&self.z, &challenges_inv, &round_lengths, k);
        let z_s = scale_vec(&z_unscaled, s_P);
        let ghost s = ecp_scalars(values(self.z@), cs, n as int, k as int, q);
        proof {
            let p = suffix_product(cs, k as int, 0);
            assert(values(z_unscaled@).len() == n);
            assert forall|t: int| 0 <= t < n implies (#[trigger] z_s@[t]).value() == s.z[t] by {
                let x = unfold(values(self.z@), inverses(cs, q), n as int, k as int, 0, t);
                assert(z_unscaled@[t].value() == values(z_unscaled@)[t]);
                lemma_md_range(x, q);
                lemma_md_range(p, q);
                lemma_eqm_mul(md(x, q), x, md(p, q), p, q);
            }
            assert(values(z_s@) =~= s.z);
        }
        let mut s_A: Vec<G::Scalar> = Vec::new();
        let mut r: usize = 0;
        while r < d
            invariant
                r <= d,
                d == cs.len(),
                k >= 1,
                2 * k <= usize::MAX,
                q == G::Scalar::modulus(),
                q > 1,
                values(challenges@) == cs,
                later_products@.len() == d,
                forall|i: int|
                    0 <= i < d ==> (#[trigger] later_products@[i]).value() == md(suffix_product(cs, k as int, i + 1), q),
                s == ecp_scalars(values(self.z@), cs, n as int, k as int, q),
                s_A@.len() == r * (2 * k - 2),
                forall|i: int| 0 <= i < s_A@.len() ==> (#[trigger] s_A@[i]).value() == s.u[i],
            decreases d - r,
        {
            let c_r = challenges[r];
            let suffix_prod = later_products[r];
            let ghost w = 2 * k - 2;
            proof {
                assert(c_r.value() == values(challenges@)[r as int]);
                assert((r + 1) * w == r * w + w) by (nonlinear_arith);
                assert((r + 1) * w <= d * w) by (nonlinear_arith)
                    requires
                        r + 1 <= d,
                        w >= 0,
                ;
            }
            let mut x: usize = 0;
            while x < 2 * k - 2
                invariant
                    r < d,
                    d == cs.len(),
                    k >= 1,
                    2 * k <= usize::MAX,
                    w == 2 * k - 2,
                    x <= w,
                    (r + 1) * w == r * w + w,
                    (r + 1) * w <= d * w,
                    q == G::Scalar::modulus(),
                    q > 1,
                    c_r.value() == cs[r as int],
                    suffix_prod.value() == md(suffix_product(cs, k as int, r + 1), q),
                    s == ecp_scalars(values(self.z@), cs, n as int, k as int, q),
                    s_A@.len() == r * w + x,
                    forall|i: int| 0 <= i < s_A@.len() ==> (#[trigger] s_A@[i]).value() == s.u[i],
                decreases w - x,
            {
                let exp: usize = if x < k - 1 { x + 1 } else { x + 2 };
                s_A.push(scalar_pow(c_r, exp as u64).times(suffix_prod));
                proof {
                    vstd::arithmetic::div_mod::lemma_fundamental_div_mod_converse(
                        r * w + x,
                        w,
                        r as int,
                        x as int,
                    );
                    let i = r * w + x;
                    assert(s_A@[i].value() == s.u[i]);
                }
                x += 1;
            }
            r += 1;
        }
        assert(values(s_A@) =~= s.u);
        Ok((z_s, s_P, s_A))
    }
}

} // verus!
