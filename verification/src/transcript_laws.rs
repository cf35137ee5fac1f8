//! What a transcript says of the messages and challenges of a proof.

use vstd::arithmetic::power::pow;
use vstd::prelude::*;
use crate::bytes::{le_bytes, le_value, lemma_le_bytes_len, lemma_le_value_of_bytes, lemma_pow_small};
use crate::ecp::{ecp_absorb, ecp_challenges, ecp_log, ecp_verify_log, ecp_verify_round_log, prove_ecp};
use crate::group::{Field, Group};
use crate::ipa::{
    before_challenge, ipa_absorb, ipa_challenges, ipa_log, ipa_verify_log, ipa_verify_round_log, prove_ipa,
};
use crate::modular::md;
use crate::r1cs::r1cs_proof::R1CSProof;
use crate::shuffle::{inputs_log, shuffle_challenge, shuffle_log};
use crate::transcript::{
    Log, append, append_number, append_scalar, append_text, challenge, challenged, merlin_challenge,
};

verus! {

/// The scalars that were drawn from a transcript, in order: each is what the
/// sponge gives after all operations before it.
pub open spec fn draws<F: Field>(log: Log) -> Seq<int>
    decreases log.len(),
{
    if log.len() == 0 {
        Seq::empty()
    } else {
        let before = log.drop_last();
        let (label, message, squeezed) = log.last();
        if squeezed == 0 {
            draws::<F>(before)
        } else {
            draws::<F>(before).push(md(le_value(merlin_challenge(before, label, squeezed)), F::modulus()))
        }
    }
}

proof fn lemma_draws_append<F: Field>(log: Log, label: Seq<char>, message: Seq<u8>)
    ensures
        draws::<F>(append(log, label, message)) == draws::<F>(log),
{
    let l = append(log, label, message);
    assert(l.drop_last() =~= log);
}

proof fn lemma_draws_challenged<F: Field>(log: Log, label: Seq<char>)
    ensures
        draws::<F>(challenged(log, label)) == draws::<F>(log).push(challenge::<F>(log, label)),
{
    let l = challenged(log, label);
    assert(l.drop_last() =~= log);
}

/// Two logs that end with a message are the same only if the messages are.
proof fn lemma_append_same(a: Log, b: Log, label: Seq<char>, x: Seq<u8>, y: Seq<u8>)
    requires
        append(a, label, x) == append(b, label, y),
    ensures
        a == b,
        x == y,
{
    let (s, t) = (append(a, label, x), append(b, label, y));
    assert(s.drop_last() =~= a);
    assert(t.drop_last() =~= b);
    assert(s.last() == t.last());
}

proof fn lemma_challenged_same(a: Log, b: Log, label: Seq<char>)
    requires
        challenged(a, label) == challenged(b, label),
    ensures
        a == b,
{
    assert(challenged(a, label).drop_last() =~= a);
    assert(challenged(b, label).drop_last() =~= b);
}

proof fn lemma_number_same(a: Log, b: Log, label: Seq<char>, n: int, m: int)
    requires
        append_number(a, label, n) == append_number(b, label, m),
        0 <= n <= u64::MAX,
        0 <= m <= u64::MAX,
    ensures
        a == b,
        n == m,
{
    lemma_append_same(a, b, label, le_bytes(n, 8), le_bytes(m, 8));
    lemma_pow_small();
    lemma_le_value_of_bytes(n, 8);
    lemma_le_value_of_bytes(m, 8);
}

proof fn lemma_scalar_same<F: Field>(a: Log, b: Log, label: Seq<char>, s: F, t: F)
    requires
        append_scalar(a, label, s.value()) == append_scalar(b, label, t.value()),
    ensures
        a == b,
        s.value() == t.value(),
{
    lemma_append_same(a, b, label, le_bytes(s.value(), 32), le_bytes(t.value(), 32));
    F::modulus_range();
    s.value_range();
    t.value_range();
    lemma_le_value_of_bytes(s.value(), 32);
    lemma_le_value_of_bytes(t.value(), 32);
}

// ---------------------------------------------------------------------------
// The inner product argument
// ---------------------------------------------------------------------------

proof fn lemma_ipa_absorb_draws<F: Field>(log: Log, round: int, points: Seq<Seq<u8>>, count: int)
    ensures
        draws::<F>(ipa_absorb(log, round, points, count)) == draws::<F>(log),
    decreases count,
{
    if count > 0 {
        lemma_ipa_absorb_draws::<F>(log, round, points, count - 1);
        let l0 = ipa_absorb(log, round, points, count - 1);
        let l1 = append_number(l0, "U_round"@, round);
        let l2 = append_number(l1, "U_index"@, count - 1);
        lemma_draws_append::<F>(l0, "U_round"@, le_bytes(round, 8));
        lemma_draws_append::<F>(l1, "U_index"@, le_bytes(count - 1, 8));
        lemma_draws_append::<F>(l2, "U_point"@, points[count - 1]);
    }
}

proof fn lemma_before_challenge_draws<F: Field>(log: Log, round: int)
    ensures
        draws::<F>(before_challenge(log, round)) == draws::<F>(log),
{
    let l1 = append_text(log, "challenge_prefix"@, "c_"@);
    lemma_draws_append::<F>(log, "challenge_prefix"@, vstd::utf8::encode_utf8("c_"@));
    lemma_draws_append::<F>(l1, "challenge_index"@, le_bytes(round, 8));
}

proof fn lemma_ipa_draws<G: Group>(log: Log, us: Seq<Seq<Seq<u8>>>, k: int, r: int)
    requires
        0 <= r <= us.len(),
    ensures
        draws::<G::Scalar>(ipa_verify_log(log, us, k, r)) == draws::<G::Scalar>(log) + ipa_challenges::<G>(
            log,
            us,
            k,
        ).take(r),
    decreases r,
{
    let cs = ipa_challenges::<G>(log, us, k);
    if r > 0 {
        lemma_ipa_draws::<G>(log, us, k, r - 1);
        let l = ipa_verify_log(log, us, k, r - 1);
        let l1 = ipa_absorb(l, r - 1, us[r - 1], 2 * k - 2);
        lemma_ipa_absorb_draws::<G::Scalar>(l, r - 1, us[r - 1], 2 * k - 2);
        lemma_before_challenge_draws::<G::Scalar>(l1, r - 1);
        lemma_draws_challenged::<G::Scalar>(before_challenge(l1, r - 1), "challenge_separator"@);
        assert(cs.take(r) =~= cs.take(r - 1).push(cs[r - 1]));
        assert(draws::<G::Scalar>(log) + cs.take(r) =~= (draws::<G::Scalar>(log) + cs.take(r - 1)).push(cs[r - 1]));
    } else {
        assert(draws::<G::Scalar>(log) + cs.take(0) =~= draws::<G::Scalar>(log));
    }
}

proof fn lemma_ipa_start_draws<F: Field>(log: Log, n: int, k: int)
    ensures
        draws::<F>(ipa_log(log, n, k)) == draws::<F>(log),
{
    let l1 = append_text(log, "protocol-name"@, "k_bullet_delay"@);
    let l2 = append_number(l1, "n"@, n);
    lemma_draws_append::<F>(log, "protocol-name"@, vstd::utf8::encode_utf8("k_bullet_delay"@));
    lemma_draws_append::<F>(l1, "n"@, le_bytes(n, 8));
    lemma_draws_append::<F>(l2, "k"@, le_bytes(k, 8));
}

/// The challenges of an inner product argument are what is drawn from the
/// transcript, one for each round and in this order.
pub proof fn law_ipa_draws<G: Group>(p: prove_ipa<G>, log: Log, n: int)
    ensures
        p.challenges(log, n).len() == p.U_vecs@.len(),
        draws::<G::Scalar>(p.log_after(log, n)) == draws::<G::Scalar>(log) + p.challenges(log, n),
{
    let start = ipa_log(log, n, p.k as int);
    lemma_ipa_start_draws::<G::Scalar>(log, n, p.k as int);
    lemma_ipa_draws::<G>(start, p.points(), p.k as int, p.U_vecs@.len() as int);
    assert(p.challenges(log, n).take(p.U_vecs@.len() as int) =~= p.challenges(log, n));
}

proof fn lemma_ipa_absorb_same(
    a: Log,
    b: Log,
    round: int,
    x: Seq<Seq<u8>>,
    y: Seq<Seq<u8>>,
    count: int,
)
    requires
        ipa_absorb(a, round, x, count) == ipa_absorb(b, round, y, count),
    ensures
        a == b,
        forall|i: int| 0 <= i < count ==> #[trigger] x[i] == y[i],
    decreases count,
{
    if count > 0 {
        let (a0, b0) = (ipa_absorb(a, round, x, count - 1), ipa_absorb(b, round, y, count - 1));
        let (a1, b1) = (append_number(a0, "U_round"@, round), append_number(b0, "U_round"@, round));
        let (a2, b2) = (append_number(a1, "U_index"@, count - 1), append_number(b1, "U_index"@, count - 1));
        lemma_append_same(a2, b2, "U_point"@, x[count - 1], y[count - 1]);
        lemma_append_same(a1, b1, "U_index"@, le_bytes(count - 1, 8), le_bytes(count - 1, 8));
        lemma_append_same(a0, b0, "U_round"@, le_bytes(round, 8), le_bytes(round, 8));
        lemma_ipa_absorb_same(a, b, round, x, y, count - 1);
    }
}

proof fn lemma_before_challenge_same(a: Log, b: Log, round: int)
    requires
        before_challenge(a, round) == before_challenge(b, round),
    ensures
        a == b,
{
    let c = vstd::utf8::encode_utf8("c_"@);
    let (a1, b1) = (append(a, "challenge_prefix"@, c), append(b, "challenge_prefix"@, c));
    lemma_append_same(a1, b1, "challenge_index"@, le_bytes(round, 8), le_bytes(round, 8));
    lemma_append_same(a, b, "challenge_prefix"@, c, c);
}

/// The cross terms of a round and of all rounds before it go into the
/// transcript before the challenge of the round is drawn: if it is the same,
/// they are.
pub proof fn law_ipa_round_binding(
    a: Log,
    b: Log,
    x: Seq<Seq<Seq<u8>>>,
    y: Seq<Seq<Seq<u8>>>,
    k: int,
    r: int,
)
    requires
        r >= 0,
        ipa_verify_round_log(a, x, k, r) == ipa_verify_round_log(b, y, k, r),
    ensures
        a == b,
        forall|i: int, j: int| 0 <= i <= r && 0 <= j < 2 * k - 2 ==> #[trigger] x[i][j] == y[i][j],
    decreases r,
{
    let (l, m) = (ipa_verify_log(a, x, k, r), ipa_verify_log(b, y, k, r));
    lemma_before_challenge_same(
        ipa_absorb(l, r, x[r], 2 * k - 2),
        ipa_absorb(m, r, y[r], 2 * k - 2),
        r,
    );
    lemma_ipa_absorb_same(l, m, r, x[r], y[r], 2 * k - 2);
    if r > 0 {
        lemma_challenged_same(
            ipa_verify_round_log(a, x, k, r - 1),
            ipa_verify_round_log(b, y, k, r - 1),
            "challenge_separator"@,
        );
        law_ipa_round_binding(a, b, x, y, k, r - 1);
    }
}

proof fn lemma_ipa_start_same(a: Log, b: Log, n: int, m: int, k: int)
    requires
        ipa_log(a, n, k) == ipa_log(b, m, k),
        0 <= n <= u64::MAX,
        0 <= m <= u64::MAX,
    ensures
        a == b,
        n == m,
{
    let t = vstd::utf8::encode_utf8("k_bullet_delay"@);
    let (a1, b1) = (append(a, "protocol-name"@, t), append(b, "protocol-name"@, t));
    let (a2, b2) = (append_number(a1, "n"@, n), append_number(b1, "n"@, m));
    lemma_append_same(a2, b2, "k"@, le_bytes(k, 8), le_bytes(k, 8));
    lemma_number_same(a1, b1, "n"@, n, m);
    lemma_append_same(a, b, "protocol-name"@, t, t);
}

/// The transcript after an inner product argument holds the length of the
/// vectors and all cross terms: two arguments of one shape leave the same
/// transcript only if they agree in them.
pub proof fn law_ipa_binding<G: Group>(p: prove_ipa<G>, q: prove_ipa<G>, a: Log, b: Log, n: int, m: int)
    requires
        p.shaped(),
        q.shaped(),
        p.k == q.k,
        p.U_vecs@.len() == q.U_vecs@.len(),
        0 <= n <= u64::MAX,
        0 <= m <= u64::MAX,
        p.log_after(a, n) == q.log_after(b, m),
    ensures
        a == b,
        n == m,
        forall|r: int, x: int|
            0 <= r < p.U_vecs@.len() && 0 <= x < 2 * p.k - 2 ==> G::bytes(#[trigger] p.U_vecs@[r]@[x]) == G::bytes(
                q.U_vecs@[r]@[x],
            ),
{
    let k = p.k as int;
    let d = p.U_vecs@.len() as int;
    let (s, t) = (ipa_log(a, n, k), ipa_log(b, m, k));
    if d > 0 {
        lemma_challenged_same(
            ipa_verify_round_log(s, p.points(), k, d - 1),
            ipa_verify_round_log(t, q.points(), k, d - 1),
            "challenge_separator"@,
        );
        law_ipa_round_binding(s, t, p.points(), q.points(), k, d - 1);
    }
    assert forall|r: int, x: int| 0 <= r < d && 0 <= x < 2 * k - 2 implies G::bytes(#[trigger] p.U_vecs@[r]@[x])
        == G::bytes(q.U_vecs@[r]@[x]) by {
        assert(p.U_vecs@[r]@.len() >= 2 * k - 2 && q.U_vecs@[r]@.len() >= 2 * k - 2);
        assert(p.points()[r][x] == q.points()[r][x]);
    }
    lemma_ipa_start_same(a, b, n, m, k);
}

// ---------------------------------------------------------------------------
// The argument for two sets of bases
// ---------------------------------------------------------------------------

proof fn lemma_ecp_absorb_draws<F: Field>(
    log: Log,
    round: int,
    p0: Seq<Seq<u8>>,
    p1: Seq<Seq<u8>>,
    count: int,
)
    ensures
        draws::<F>(ecp_absorb(log, round, p0, p1, count)) == draws::<F>(log),
    decreases count,
{
    if count > 0 {
        lemma_ecp_absorb_draws::<F>(log, round, p0, p1, count - 1);
        let l0 = ecp_absorb(log, round, p0, p1, count - 1);
        let l1 = append_number(l0, "A_round"@, round);
        let l2 = append_number(l1, "A_index"@, count - 1);
        let l3 = append(l2, "A_point_0"@, p0[count - 1]);
        lemma_draws_append::<F>(l0, "A_round"@, le_bytes(round, 8));
        lemma_draws_append::<F>(l1, "A_index"@, le_bytes(count - 1, 8));
        lemma_draws_append::<F>(l2, "A_point_0"@, p0[count - 1]);
        lemma_draws_append::<F>(l3, "A_point_1"@, p1[count - 1]);
    }
}

proof fn lemma_ecp_draws<G: Group>(log: Log, p0: Seq<Seq<Seq<u8>>>, p1: Seq<Seq<Seq<u8>>>, k: int, r: int)
    requires
        0 <= r <= p0.len(),
    ensures
        draws::<G::Scalar>(ecp_verify_log(log, p0, p1, k, r)) == draws::<G::Scalar>(log) + ecp_challenges::<G>(
            log,
            p0,
            p1,
            k,
        ).take(r),
    decreases r,
{
    let cs = ecp_challenges::<G>(log, p0, p1, k);
    if r > 0 {
        lemma_ecp_draws::<G>(log, p0, p1, k, r - 1);
        let l = ecp_verify_log(log, p0, p1, k, r - 1);
        let l1 = ecp_absorb(l, r - 1, p0[r - 1], p1[r - 1], 2 * k - 2);
        lemma_ecp_absorb_draws::<G::Scalar>(l, r - 1, p0[r - 1], p1[r - 1], 2 * k - 2);
        lemma_before_challenge_draws::<G::Scalar>(l1, r - 1);
        lemma_draws_challenged::<G::Scalar>(before_challenge(l1, r - 1), "challenge_separator"@);
        assert(cs.take(r) =~= cs.take(r - 1).push(cs[r - 1]));
        assert(draws::<G::Scalar>(log) + cs.take(r) =~= (draws::<G::Scalar>(log) + cs.take(r - 1)).push(cs[r - 1]));
    } else {
        assert(draws::<G::Scalar>(log) + cs.take(0) =~= draws::<G::Scalar>(log));
    }
}

proof fn lemma_ecp_start_draws<F: Field>(log: Log, n: int, k: int)
    ensures
        draws::<F>(ecp_log(log, n, k)) == draws::<F>(log),
{
    let l1 = append_text(log, "protocol-name"@, "k_ipp_delay_2"@);
    let l2 = append_number(l1, "n"@, n);
    lemma_draws_append::<F>(log, "protocol-name"@, vstd::utf8::encode_utf8("k_ipp_delay_2"@));
    lemma_draws_append::<F>(l1, "n"@, le_bytes(n, 8));
    lemma_draws_append::<F>(l2, "k"@, le_bytes(k, 8));
}

/// The challenges of an argument for two sets of bases are what is drawn from
/// the transcript, one for each round and in this order.
pub proof fn law_ecp_draws<G: Group>(p: prove_ecp<G>, log: Log, n: int)
    ensures
        p.challenges(log, n).len() == p.A_vecs@.len(),
        draws::<G::Scalar>(p.log_after(log, n)) == draws::<G::Scalar>(log) + p.challenges(log, n),
{
    let start = ecp_log(log, n, p.k as int);
    lemma_ecp_start_draws::<G::Scalar>(log, n, p.k as int);
    lemma_ecp_draws::<G>(start, p.points(0), p.points(1), p.k as int, p.A_vecs@.len() as int);
    assert(p.challenges(log, n).take(p.A_vecs@.len() as int) =~= p.challenges(log, n));
}

proof fn lemma_ecp_absorb_same(
    a: Log,
    b: Log,
    round: int,
    x0: Seq<Seq<u8>>,
    x1: Seq<Seq<u8>>,
    y0: Seq<Seq<u8>>,
    y1: Seq<Seq<u8>>,
    count: int,
)
    requires
        ecp_absorb(a, round, x0, x1, count) == ecp_absorb(b, round, y0, y1, count),
    ensures
        a == b,
        forall|i: int| 0 <= i < count ==> #[trigger] x0[i] == y0[i],
        forall|i: int| 0 <= i < count ==> #[trigger] x1[i] == y1[i],
    decreases count,
{
    if count > 0 {
        let (a0, b0) = (ecp_absorb(a, round, x0, x1, count - 1), ecp_absorb(b, round, y0, y1, count - 1));
        let (a1, b1) = (append_number(a0, "A_round"@, round), append_number(b0, "A_round"@, round));
        let (a2, b2) = (append_number(a1, "A_index"@, count - 1), append_number(b1, "A_index"@, count - 1));
        let (a3, b3) = (append(a2, "A_point_0"@, x0[count - 1]), append(b2, "A_point_0"@, y0[count - 1]));
        lemma_append_same(a3, b3, "A_point_1"@, x1[count - 1], y1[count - 1]);
        lemma_append_same(a2, b2, "A_point_0"@, x0[count - 1], y0[count - 1]);
        lemma_append_same(a1, b1, "A_index"@, le_bytes(count - 1, 8), le_bytes(count - 1, 8));
        lemma_append_same(a0, b0, "A_round"@, le_bytes(round, 8), le_bytes(round, 8));
        lemma_ecp_absorb_same(a, b, round, x0, x1, y0, y1, count - 1);
    }
}

/// The pairs of cross terms of a round and of all rounds before it go into the
/// transcript before the challenge of the round is drawn: if it is the same,
/// they are.
pub proof fn law_ecp_round_binding(
    a: Log,
    b: Log,
    x0: Seq<Seq<Seq<u8>>>,
    x1: Seq<Seq<Seq<u8>>>,
    y0: Seq<Seq<Seq<u8>>>,
    y1: Seq<Seq<Seq<u8>>>,
    k: int,
    r: int,
)
    requires
        r >= 0,
        ecp_verify_round_log(a, x0, x1, k, r) == ecp_verify_round_log(b, y0, y1, k, r),
    ensures
        a == b,
        forall|i: int, j: int| 0 <= i <= r && 0 <= j < 2 * k - 2 ==> #[trigger] x0[i][j] == y0[i][j],
        forall|i: int, j: int| 0 <= i <= r && 0 <= j < 2 * k - 2 ==> #[trigger] x1[i][j] == y1[i][j],
    decreases r,
{
    let (l, m) = (ecp_verify_log(a, x0, x1, k, r), ecp_verify_log(b, y0, y1, k, r));
    lemma_before_challenge_same(
        ecp_absorb(l, r, x0[r], x1[r], 2 * k - 2),
        ecp_absorb(m, r, y0[r], y1[r], 2 * k - 2),
        r,
    );
    lemma_ecp_absorb_same(l, m, r, x0[r], x1[r], y0[r], y1[r], 2 * k - 2);
    if r > 0 {
        lemma_challenged_same(
            ecp_verify_round_log(a, x0, x1, k, r - 1),
            ecp_verify_round_log(b, y0, y1, k, r - 1),
            "challenge_separator"@,
        );
        law_ecp_round_binding(a, b, x0, x1, y0, y1, k, r - 1);
    }
}

proof fn lemma_ecp_start_same(a: Log, b: Log, n: int, m: int, k: int)
    requires
        ecp_log(a, n, k) == ecp_log(b, m, k),
        0 <= n <= u64::MAX,
        0 <= m <= u64::MAX,
    ensures
        a == b,
        n == m,
{
    let t = vstd::utf8::encode_utf8("k_ipp_delay_2"@);
    let (a1, b1) = (append(a, "protocol-name"@, t), append(b, "protocol-name"@, t));
    let (a2, b2) = (append_number(a1, "n"@, n), append_number(b1, "n"@, m));
    lemma_append_same(a2, b2, "k"@, le_bytes(k, 8), le_bytes(k, 8));
    lemma_number_same(a1, b1, "n"@, n, m);
    lemma_append_same(a, b, "protocol-name"@, t, t);
}

/// The transcript after an argument for two sets of bases holds the length of
/// the vectors and all pairs of cross terms: two arguments of one shape leave
/// the same transcript only if they agree in them.
pub proof fn law_ecp_binding<G: Group>(p: prove_ecp<G>, q: prove_ecp<G>, a: Log, b: Log, n: int, m: int)
    requires
        p.shaped(),
        q.shaped(),
        p.k == q.k,
        p.A_vecs@.len() == q.A_vecs@.len(),
        0 <= n <= u64::MAX,
        0 <= m <= u64::MAX,
        p.log_after(a, n) == q.log_after(b, m),
    ensures
        a == b,
        n == m,
        forall|r: int, x: int|
            0 <= r < p.A_vecs@.len() && 0 <= x < 2 * p.k - 2 ==> G::bytes((#[trigger] p.A_vecs@[r]@[x])@[0])
                == G::bytes(q.A_vecs@[r]@[x]@[0]) && G::bytes(p.A_vecs@[r]@[x]@[1]) == G::bytes(
                q.A_vecs@[r]@[x]@[1],
            ),
{
    let k = p.k as int;
    let d = p.A_vecs@.len() as int;
    let (s, t) = (ecp_log(a, n, k), ecp_log(b, m, k));
    if d > 0 {
        lemma_challenged_same(
            ecp_verify_round_log(s, p.points(0), p.points(1), k, d - 1),
            ecp_verify_round_log(t, q.points(0), q.points(1), k, d - 1),
            "challenge_separator"@,
        );
        law_ecp_round_binding(s, t, p.points(0), p.points(1), q.points(0), q.points(1), k, d - 1);
    }
    assert forall|r: int, x: int| 0 <= r < d && 0 <= x < 2 * k - 2 implies G::bytes(
        (#[trigger] p.A_vecs@[r]@[x])@[0],
    ) == G::bytes(q.A_vecs@[r]@[x]@[0]) && G::bytes(p.A_vecs@[r]@[x]@[1]) == G::bytes(q.A_vecs@[r]@[x]@[1]) by {
        assert(p.A_vecs@[r]@.len() >= 2 * k - 2 && q.A_vecs@[r]@.len() >= 2 * k - 2);
        assert(p.points(0)[r][x] == q.points(0)[r][x]);
        assert(p.points(1)[r][x] == q.points(1)[r][x]);
    }
    lemma_ecp_start_same(a, b, n, m, k);
}

// ---------------------------------------------------------------------------
// The proof of a constraint system
// ---------------------------------------------------------------------------

/// The challenges of a proof are what is drawn from the transcript while it is
/// read, in this order.
pub proof fn law_proof_draws<G: Group>(p: R1CSProof<G>, log: Log, n: int)
    ensures
        ({
            let c = p.challenges(log, n);
            draws::<G::Scalar>(p.log_end(log, n)) == draws::<G::Scalar>(log) + seq![
                c.y,
                c.z,
                c.x,
                c.x_prime,
                c.x_ipp,
                c.w_agg,
            ] + p.ipp_proof.challenges(p.log_ipp(log), n) + seq![c.batch] + p.ecp_batched.challenges(
                p.log_ecp(log, n),
                n,
            )
        }),
{
    let c = p.challenges(log, n);
    let d = draws::<G::Scalar>(log);
    let l0_0 = log;
    lemma_draws_append::<G::Scalar>(l0_0, "A_I"@, G::bytes(p.A_I));
    let l0_1 = append(l0_0, "A_I"@, G::bytes(p.A_I));
    lemma_draws_append::<G::Scalar>(l0_1, "A_O"@, G::bytes(p.A_O));
    let l0_2 = append(l0_1, "A_O"@, G::bytes(p.A_O));
    lemma_draws_append::<G::Scalar>(l0_2, "S"@, G::bytes(p.S));
    let l0_3 = append(l0_2, "S"@, G::bytes(p.S));
    assert(l0_3 == p.log_y(log));
    lemma_draws_challenged::<G::Scalar>(p.log_y(log), "y"@);
    let l1_0 = p.log_z(log);
    assert(l1_0 == p.log_z(log));
    lemma_draws_challenged::<G::Scalar>(p.log_z(log), "z"@);
    let l2_0 = challenged(p.log_z(log), "z"@);
    lemma_draws_append::<G::Scalar>(l2_0, "T_1"@, G::bytes(p.T_1));
    let l2_1 = append(l2_0, "T_1"@, G::bytes(p.T_1));
    lemma_draws_append::<G::Scalar>(l2_1, "T_3"@, G::bytes(p.T_3));
    let l2_2 = append(l2_1, "T_3"@, G::bytes(p.T_3));
    lemma_draws_append::<G::Scalar>(l2_2, "T_4"@, G::bytes(p.T_4));
    let l2_3 = append(l2_2, "T_4"@, G::bytes(p.T_4));
    lemma_draws_append::<G::Scalar>(l2_3, "T_5"@, G::bytes(p.T_5));
    let l2_4 = append(l2_3, "T_5"@, G::bytes(p.T_5));
    lemma_draws_append::<G::Scalar>(l2_4, "T_6"@, G::bytes(p.T_6));
    let l2_5 = append(l2_4, "T_6"@, G::bytes(p.T_6));
    lemma_draws_append::<G::Scalar>(l2_5, "T_2"@, G::bytes(p.T_2));
    let l2_6 = append(l2_5, "T_2"@, G::bytes(p.T_2));
    assert(l2_6 == p.log_x(log));
    lemma_draws_challenged::<G::Scalar>(p.log_x(log), "x"@);
    let l3_0 = challenged(p.log_x(log), "x"@);
    lemma_draws_append::<G::Scalar>(l3_0, "t_x"@, le_bytes(p.t_x.value(), 32));
    let l3_1 = append_scalar(l3_0, "t_x"@, p.t_x.value());
    lemma_draws_append::<G::Scalar>(l3_1, "t_x_blinding"@, le_bytes(p.t_x_blinding.value(), 32));
    let l3_2 = append_scalar(l3_1, "t_x_blinding"@, p.t_x_blinding.value());
    lemma_draws_append::<G::Scalar>(l3_2, "e_blinding"@, le_bytes(p.e_blinding.value(), 32));
    let l3_3 = append_scalar(l3_2, "e_blinding"@, p.e_blinding.value());
    lemma_draws_append::<G::Scalar>(l3_3, "S_prime"@, G::bytes(p.S_prime));
    let l3_4 = append(l3_3, "S_prime"@, G::bytes(p.S_prime));
    lemma_draws_append::<G::Scalar>(l3_4, "T_1_prime"@, G::bytes(p.T_1_prime));
    let l3_5 = append(l3_4, "T_1_prime"@, G::bytes(p.T_1_prime));
    lemma_draws_append::<G::Scalar>(l3_5, "S1_prime"@, G::bytes(p.S1_prime));
    let l3_6 = append(l3_5, "S1_prime"@, G::bytes(p.S1_prime));
    lemma_draws_append::<G::Scalar>(l3_6, "S2_prime"@, G::bytes(p.S2_prime));
    let l3_7 = append(l3_6, "S2_prime"@, G::bytes(p.S2_prime));
    assert(l3_7 == p.log_x_prime(log));
    lemma_draws_challenged::<G::Scalar>(p.log_x_prime(log), "x_prime"@);
    let l4_0 = challenged(p.log_x_prime(log), "x_prime"@);
    lemma_draws_append::<G::Scalar>(l4_0, "tc_x"@, le_bytes(p.tc_x.value(), 32));
    let l4_1 = append_scalar(l4_0, "tc_x"@, p.tc_x.value());
    lemma_draws_append::<G::Scalar>(l4_1, "tc_x_blinding"@, le_bytes(p.tc_x_blinding.value(), 32));
    let l4_2 = append_scalar(l4_1, "tc_x_blinding"@, p.tc_x_blinding.value());
    lemma_draws_append::<G::Scalar>(l4_2, "ec_blinding"@, le_bytes(p.ec_blinding.value(), 32));
    let l4_3 = append_scalar(l4_2, "ec_blinding"@, p.ec_blinding.value());
    lemma_draws_append::<G::Scalar>(l4_3, "r_blinding"@, le_bytes(p.r_blinding.value(), 32));
    let l4_4 = append_scalar(l4_3, "r_blinding"@, p.r_blinding.value());
    lemma_draws_append::<G::Scalar>(l4_4, "t_cross"@, le_bytes(p.t_cross.value(), 32));
    let l4_5 = append_scalar(l4_4, "t_cross"@, p.t_cross.value());
    assert(l4_5 == p.log_x_ipp(log));
    lemma_draws_challenged::<G::Scalar>(p.log_x_ipp(log), "x_ipp"@);
    let l5_0 = p.log_w(log);
    assert(l5_0 == p.log_w(log));
    lemma_draws_challenged::<G::Scalar>(p.log_w(log), "w_agg"@);
    law_ipa_draws(p.ipp_proof, p.log_ipp(log), n);
    lemma_draws_challenged::<G::Scalar>(p.log_batch(log, n), "chall_batched_ecp"@);
    law_ecp_draws(p.ecp_batched, p.log_ecp(log, n), n);
    let six = seq![c.y, c.z, c.x, c.x_prime, c.x_ipp, c.w_agg];
    assert(d.push(c.y).push(c.z).push(c.x).push(c.x_prime).push(c.x_ipp).push(c.w_agg) =~= d + six);
    let ipp = p.ipp_proof.challenges(p.log_ipp(log), n);
    assert((d + six + ipp).push(c.batch) =~= d + six + ipp + seq![c.batch]);
}

/// The first three commitments go into the transcript before `y` is drawn: if it
/// is the same, they are.
pub proof fn law_y_binding<G: Group>(p: R1CSProof<G>, q: R1CSProof<G>, a: Log, b: Log)
    requires
        p.log_y(a) == q.log_y(b),
    ensures
        a == b,
        G::bytes(p.A_I) == G::bytes(q.A_I),
        G::bytes(p.A_O) == G::bytes(q.A_O),
        G::bytes(p.S) == G::bytes(q.S),
{
    let a_0 = a;
    let b_0 = b;
    let a_1 = append(a_0, "A_I"@, G::bytes(p.A_I));
    let b_1 = append(b_0, "A_I"@, G::bytes(q.A_I));
    let a_2 = append(a_1, "A_O"@, G::bytes(p.A_O));
    let b_2 = append(b_1, "A_O"@, G::bytes(q.A_O));
    lemma_append_same(a_2, b_2, "S"@, G::bytes(p.S), G::bytes(q.S));
    lemma_append_same(a_1, b_1, "A_O"@, G::bytes(p.A_O), G::bytes(q.A_O));
    lemma_append_same(a_0, b_0, "A_I"@, G::bytes(p.A_I), G::bytes(q.A_I));
}

/// The commitments to the coefficients of the polynomial, and all before them, go
/// into the transcript before `x` is drawn.
pub proof fn law_x_binding<G: Group>(p: R1CSProof<G>, q: R1CSProof<G>, a: Log, b: Log)
    requires
        p.log_x(a) == q.log_x(b),
    ensures
        a == b,
        G::bytes(p.A_I) == G::bytes(q.A_I),
        G::bytes(p.A_O) == G::bytes(q.A_O),
        G::bytes(p.S) == G::bytes(q.S),
        G::bytes(p.T_1) == G::bytes(q.T_1),
        G::bytes(p.T_3) == G::bytes(q.T_3),
        G::bytes(p.T_4) == G::bytes(q.T_4),
        G::bytes(p.T_5) == G::bytes(q.T_5),
        G::bytes(p.T_6) == G::bytes(q.T_6),
        G::bytes(p.T_2) == G::bytes(q.T_2),
{
    let a_0 = challenged(p.log_z(a), "z"@);
    let b_0 = challenged(q.log_z(b), "z"@);
    let a_1 = append(a_0, "T_1"@, G::bytes(p.T_1));
    let b_1 = append(b_0, "T_1"@, G::bytes(q.T_1));
    let a_2 = append(a_1, "T_3"@, G::bytes(p.T_3));
    let b_2 = append(b_1, "T_3"@, G::bytes(q.T_3));
    let a_3 = append(a_2, "T_4"@, G::bytes(p.T_4));
    let b_3 = append(b_2, "T_4"@, G::bytes(q.T_4));
    let a_4 = append(a_3, "T_5"@, G::bytes(p.T_5));
    let b_4 = append(b_3, "T_5"@, G::bytes(q.T_5));
    let a_5 = append(a_4, "T_6"@, G::bytes(p.T_6));
    let b_5 = append(b_4, "T_6"@, G::bytes(q.T_6));
    lemma_append_same(a_5, b_5, "T_2"@, G::bytes(p.T_2), G::bytes(q.T_2));
    lemma_append_same(a_4, b_4, "T_6"@, G::bytes(p.T_6), G::bytes(q.T_6));
    lemma_append_same(a_3, b_3, "T_5"@, G::bytes(p.T_5), G::bytes(q.T_5));
    lemma_append_same(a_2, b_2, "T_4"@, G::bytes(p.T_4), G::bytes(q.T_4));
    lemma_append_same(a_1, b_1, "T_3"@, G::bytes(p.T_3), G::bytes(q.T_3));
    lemma_append_same(a_0, b_0, "T_1"@, G::bytes(p.T_1), G::bytes(q.T_1));
    lemma_challenged_same(p.log_z(a), q.log_z(b), "z"@);
    lemma_challenged_same(p.log_y(a), q.log_y(b), "y"@);
    law_y_binding(p, q, a, b);
}

/// The value of the polynomial, the commitments to the vectors that blind the
/// inputs, and all before them, go into the transcript before `x_prime` is drawn.
pub proof fn law_x_prime_binding<G: Group>(p: R1CSProof<G>, q: R1CSProof<G>, a: Log, b: Log)
    requires
        p.log_x_prime(a) == q.log_x_prime(b),
    ensures
        a == b,
        G::bytes(p.A_I) == G::bytes(q.A_I),
        G::bytes(p.A_O) == G::bytes(q.A_O),
        G::bytes(p.S) == G::bytes(q.S),
        G::bytes(p.T_1) == G::bytes(q.T_1),
        G::bytes(p.T_3) == G::bytes(q.T_3),
        G::bytes(p.T_4) == G::bytes(q.T_4),
        G::bytes(p.T_5) == G::bytes(q.T_5),
        G::bytes(p.T_6) == G::bytes(q.T_6),
        G::bytes(p.T_2) == G::bytes(q.T_2),
        p.t_x.value() == q.t_x.value(),
        p.t_x_blinding.value() == q.t_x_blinding.value(),
        p.e_blinding.value() == q.e_blinding.value(),
        G::bytes(p.S_prime) == G::bytes(q.S_prime),
        G::bytes(p.T_1_prime) == G::bytes(q.T_1_prime),
        G::bytes(p.S1_prime) == G::bytes(q.S1_prime),
        G::bytes(p.S2_prime) == G::bytes(q.S2_prime),
{
    let a_0 = challenged(p.log_x(a), "x"@);
    let b_0 = challenged(q.log_x(b), "x"@);
    let a_1 = append_scalar(a_0, "t_x"@, p.t_x.value());
    let b_1 = append_scalar(b_0, "t_x"@, q.t_x.value());
    let a_2 = append_scalar(a_1, "t_x_blinding"@, p.t_x_blinding.value());
    let b_2 = append_scalar(b_1, "t_x_blinding"@, q.t_x_blinding.value());
    let a_3 = append_scalar(a_2, "e_blinding"@, p.e_blinding.value());
    let b_3 = append_scalar(b_2, "e_blinding"@, q.e_blinding.value());
    let a_4 = append(a_3, "S_prime"@, G::bytes(p.S_prime));
    let b_4 = append(b_3, "S_prime"@, G::bytes(q.S_prime));
    let a_5 = append(a_4, "T_1_prime"@, G::bytes(p.T_1_prime));
    let b_5 = append(b_4, "T_1_prime"@, G::bytes(q.T_1_prime));
    let a_6 = append(a_5, "S1_prime"@, G::bytes(p.S1_prime));
    let b_6 = append(b_5, "S1_prime"@, G::bytes(q.S1_prime));
    lemma_append_same(a_6, b_6, "S2_prime"@, G::bytes(p.S2_prime), G::bytes(q.S2_prime));
    lemma_append_same(a_5, b_5, "S1_prime"@, G::bytes(p.S1_prime), G::bytes(q.S1_prime));
    lemma_append_same(a_4, b_4, "T_1_prime"@, G::bytes(p.T_1_prime), G::bytes(q.T_1_prime));
    lemma_append_same(a_3, b_3, "S_prime"@, G::bytes(p.S_prime), G::bytes(q.S_prime));
    lemma_scalar_same(a_2, b_2, "e_blinding"@, p.e_blinding, q.e_blinding);
    lemma_scalar_same(a_1, b_1, "t_x_blinding"@, p.t_x_blinding, q.t_x_blinding);
    lemma_scalar_same(a_0, b_0, "t_x"@, p.t_x, q.t_x);
    lemma_challenged_same(p.log_x(a), q.log_x(b), "x"@);
    law_x_binding(p, q, a, b);
}

/// All other scalars of the proof, and all before them, go into the transcript
/// before `x_ipp` is drawn.
pub proof fn law_x_ipp_binding<G: Group>(p: R1CSProof<G>, q: R1CSProof<G>, a: Log, b: Log)
    requires
        p.log_x_ipp(a) == q.log_x_ipp(b),
    ensures
        a == b,
        G::bytes(p.A_I) == G::bytes(q.A_I),
        G::bytes(p.A_O) == G::bytes(q.A_O),
        G::bytes(p.S) == G::bytes(q.S),
        G::bytes(p.T_1) == G::bytes(q.T_1),
        G::bytes(p.T_3) == G::bytes(q.T_3),
        G::bytes(p.T_4) == G::bytes(q.T_4),
        G::bytes(p.T_5) == G::bytes(q.T_5),
        G::bytes(p.T_6) == G::bytes(q.T_6),
        G::bytes(p.T_2) == G::bytes(q.T_2),
        p.t_x.value() == q.t_x.value(),
        p.t_x_blinding.value() == q.t_x_blinding.value(),
        p.e_blinding.value() == q.e_blinding.value(),
        G::bytes(p.S_prime) == G::bytes(q.S_prime),
        G::bytes(p.T_1_prime) == G::bytes(q.T_1_prime),
        G::bytes(p.S1_prime) == G::bytes(q.S1_prime),
        G::bytes(p.S2_prime) == G::bytes(q.S2_prime),
        p.tc_x.value() == q.tc_x.value(),
        p.tc_x_blinding.value() == q.tc_x_blinding.value(),
        p.ec_blinding.value() == q.ec_blinding.value(),
        p.r_blinding.value() == q.r_blinding.value(),
        p.t_cross.value() == q.t_cross.value(),
{
    let a_0 = challenged(p.log_x_prime(a), "x_prime"@);
    let b_0 = challenged(q.log_x_prime(b), "x_prime"@);
    let a_1 = append_scalar(a_0, "tc_x"@, p.tc_x.value());
    let b_1 = append_scalar(b_0, "tc_x"@, q.tc_x.value());
    let a_2 = append_scalar(a_1, "tc_x_blinding"@, p.tc_x_blinding.value());
    let b_2 = append_scalar(b_1, "tc_x_blinding"@, q.tc_x_blinding.value());
    let a_3 = append_scalar(a_2, "ec_blinding"@, p.ec_blinding.value());
    let b_3 = append_scalar(b_2, "ec_blinding"@, q.ec_blinding.value());
    let a_4 = append_scalar(a_3, "r_blinding"@, p.r_blinding.value());
    let b_4 = append_scalar(b_3, "r_blinding"@, q.r_blinding.value());
    lemma_scalar_same(a_4, b_4, "t_cross"@, p.t_cross, q.t_cross);
    lemma_scalar_same(a_3, b_3, "r_blinding"@, p.r_blinding, q.r_blinding);
    lemma_scalar_same(a_2, b_2, "ec_blinding"@, p.ec_blinding, q.ec_blinding);
    lemma_scalar_same(a_1, b_1, "tc_x_blinding"@, p.tc_x_blinding, q.tc_x_blinding);
    lemma_scalar_same(a_0, b_0, "tc_x"@, p.tc_x, q.tc_x);
    lemma_challenged_same(p.log_x_prime(a), q.log_x_prime(b), "x_prime"@);
    law_x_prime_binding(p, q, a, b);
}

/// The transcript after a proof holds the number of inputs and all that the
/// proof says but for the final vectors of its folding arguments: two proofs
/// of one shape leave the same transcript only if they agree in that.
pub proof fn law_proof_binding<G: Group>(p: R1CSProof<G>, q: R1CSProof<G>, a: Log, b: Log, n: int, m: int)
    requires
        p.shaped(),
        q.shaped(),
        p.ipp_proof.k == q.ipp_proof.k,
        p.ipp_proof.U_vecs@.len() == q.ipp_proof.U_vecs@.len(),
        p.ecp_batched.k == q.ecp_batched.k,
        p.ecp_batched.A_vecs@.len() == q.ecp_batched.A_vecs@.len(),
        0 <= n <= u64::MAX,
        0 <= m <= u64::MAX,
        p.log_end(a, n) == q.log_end(b, m),
    ensures
        a == b,
        n == m,
        G::bytes(p.A_I) == G::bytes(q.A_I),
        G::bytes(p.A_O) == G::bytes(q.A_O),
        G::bytes(p.S) == G::bytes(q.S),
        G::bytes(p.T_1) == G::bytes(q.T_1),
        G::bytes(p.T_3) == G::bytes(q.T_3),
        G::bytes(p.T_4) == G::bytes(q.T_4),
        G::bytes(p.T_5) == G::bytes(q.T_5),
        G::bytes(p.T_6) == G::bytes(q.T_6),
        G::bytes(p.T_2) == G::bytes(q.T_2),
        p.t_x.value() == q.t_x.value(),
        p.t_x_blinding.value() == q.t_x_blinding.value(),
        p.e_blinding.value() == q.e_blinding.value(),
        G::bytes(p.S_prime) == G::bytes(q.S_prime),
        G::bytes(p.T_1_prime) == G::bytes(q.T_1_prime),
        G::bytes(p.S1_prime) == G::bytes(q.S1_prime),
        G::bytes(p.S2_prime) == G::bytes(q.S2_prime),
        p.tc_x.value() == q.tc_x.value(),
        p.tc_x_blinding.value() == q.tc_x_blinding.value(),
        p.ec_blinding.value() == q.ec_blinding.value(),
        p.r_blinding.value() == q.r_blinding.value(),
        p.t_cross.value() == q.t_cross.value(),
        forall|r: int, x: int|
            0 <= r < p.ipp_proof.U_vecs@.len() && 0 <= x < 2 * p.ipp_proof.k - 2 ==> G::bytes(
                #[trigger] p.ipp_proof.U_vecs@[r]@[x],
            ) == G::bytes(q.ipp_proof.U_vecs@[r]@[x]),
        forall|r: int, x: int|
            0 <= r < p.ecp_batched.A_vecs@.len() && 0 <= x < 2 * p.ecp_batched.k - 2 ==> G::bytes(
                (#[trigger] p.ecp_batched.A_vecs@[r]@[x])@[0],
            ) == G::bytes(q.ecp_batched.A_vecs@[r]@[x]@[0]) && G::bytes(p.ecp_batched.A_vecs@[r]@[x]@[1])
                == G::bytes(q.ecp_batched.A_vecs@[r]@[x]@[1]),
{
    law_ecp_binding(p.ecp_batched, q.ecp_batched, p.log_ecp(a, n), q.log_ecp(b, m), n, m);
    lemma_challenged_same(p.log_batch(a, n), q.log_batch(b, m), "chall_batched_ecp"@);
    law_ipa_binding(p.ipp_proof, q.ipp_proof, p.log_ipp(a), q.log_ipp(b), n, m);
    lemma_challenged_same(p.log_w(a), q.log_w(b), "w_agg"@);
    lemma_challenged_same(p.log_x_ipp(a), q.log_x_ipp(b), "x_ipp"@);
    law_x_ipp_binding(p, q, a, b);
}

// ---------------------------------------------------------------------------
// Shuffles
// ---------------------------------------------------------------------------

/// The challenge of a shuffle is what is drawn from the transcript before the
/// proof. The number of inputs and the commitment to them go into the
/// transcript before that: if it is the same, they are.
pub proof fn law_shuffle_transcript<G: Group>(
    a: Log,
    b: Log,
    n: nat,
    m: nat,
    v: G::Encoding,
    w: G::Encoding,
)
    requires
        n <= u64::MAX,
        m <= u64::MAX,
    ensures
        draws::<G::Scalar>(shuffle_log::<G>(a, n, v)) == draws::<G::Scalar>(a).push(
            shuffle_challenge::<G>(a, n, v),
        ),
        shuffle_log::<G>(a, n, v) == shuffle_log::<G>(b, m, w) ==> a == b && n == m && G::bytes(v) == G::bytes(w),
{
    let q = G::Scalar::modulus();
    let (t0, t1) = (vstd::utf8::encode_utf8("ShuffleProof"@), vstd::utf8::encode_utf8("r1cs v1"@));
    let (sn, sm) = (le_bytes(md(n as int, q), 32), le_bytes(md(m as int, q), 32));
    let (a1, b1) = (append(a, "dom-sep"@, t0), append(b, "dom-sep"@, t0));
    let (a2, b2) = (append(a1, "k"@, sn), append(b1, "k"@, sm));
    let (a3, b3) = (append(a2, "dom-sep"@, t1), append(b2, "dom-sep"@, t1));
    let (a4, b4) = (append(a3, "V"@, G::bytes(v)), append(b3, "V"@, G::bytes(w)));
    let (a5, b5) = (append_number(a4, "m"@, n as int), append_number(b4, "m"@, m as int));
    assert(inputs_log::<G>(a, n, v) == a5 && inputs_log::<G>(b, m, w) == b5);
    lemma_draws_append::<G::Scalar>(a, "dom-sep"@, t0);
    lemma_draws_append::<G::Scalar>(a1, "k"@, sn);
    lemma_draws_append::<G::Scalar>(a2, "dom-sep"@, t1);
    lemma_draws_append::<G::Scalar>(a3, "V"@, G::bytes(v));
    lemma_draws_append::<G::Scalar>(a4, "m"@, le_bytes(n as int, 8));
    lemma_draws_challenged::<G::Scalar>(a5, "k-scalar shuffle challenge"@);
    if shuffle_log::<G>(a, n, v) == shuffle_log::<G>(b, m, w) {
        lemma_challenged_same(a5, b5, "k-scalar shuffle challenge"@);
        lemma_number_same(a4, b4, "m"@, n as int, m as int);
        lemma_append_same(a3, b3, "V"@, G::bytes(v), G::bytes(w));
        lemma_append_same(a2, b2, "dom-sep"@, t1, t1);
        lemma_append_same(a1, b1, "k"@, sn, sm);
        lemma_append_same(a, b, "dom-sep"@, t0, t0);
    }
}

/// A number goes into the transcript in eight bytes, a scalar in thirty-two,
/// the least significant first; other numbers and scalars make another log.
pub proof fn law_appended_numbers(log: Log, label: Seq<char>, n: int, m: int)
    requires
        0 <= n,
        0 <= m,
    ensures
        n <= u64::MAX ==> {
            let e = append_number(log, label, n).last();
            e.0 == label && e.1.len() == 8 && le_value(e.1) == n && e.2 == 0
        },
        n <= u64::MAX && m <= u64::MAX && append_number(log, label, n) == append_number(log, label, m) ==> n == m,
        n < pow(256, 32) ==> {
            let e = append_scalar(log, label, n).last();
            e.0 == label && e.1.len() == 32 && le_value(e.1) == n && e.2 == 0
        },
        n < pow(256, 32) && m < pow(256, 32) && append_scalar(log, label, n) == append_scalar(log, label, m) ==> n
            == m,
        append_number(log, label, n).drop_last() == log,
        append_scalar(log, label, n).drop_last() == log,
{
    lemma_pow_small();
    lemma_le_bytes_len(n, 8);
    lemma_le_bytes_len(n, 32);
    lemma_le_bytes_len(m, 32);
    if n <= u64::MAX {
        lemma_le_value_of_bytes(n, 8);
    }
    if m <= u64::MAX {
        lemma_le_value_of_bytes(m, 8);
    }
    if n < pow(256, 32) {
        lemma_le_value_of_bytes(n, 32);
    }
    if m < pow(256, 32) {
        lemma_le_value_of_bytes(m, 32);
    }
    assert(append_number(log, label, n).last().1 == le_bytes(n, 8));
    assert(append_number(log, label, m).last().1 == le_bytes(m, 8));
    assert(append_scalar(log, label, n).last().1 == le_bytes(n, 32));
    assert(append_scalar(log, label, m).last().1 == le_bytes(m, 32));
    assert(append_number(log, label, n).drop_last() =~= log);
    assert(append_scalar(log, label, n).drop_last() =~= log);
}

/// What a prover and a verifier put into the transcript and draw from it, one
/// after the other, up to the inner product argument.
pub proof fn law_proof_messages<G: Group>(p: R1CSProof<G>, log: Log, n: int)
    ensures
        p.log_ipp(log) == log + seq![
            ("A_I"@, G::bytes(p.A_I), 0nat),
            ("A_O"@, G::bytes(p.A_O), 0nat),
            ("S"@, G::bytes(p.S), 0nat),
            ("y"@, Seq::<u8>::empty(), 64nat),
            ("z"@, Seq::<u8>::empty(), 64nat),
            ("T_1"@, G::bytes(p.T_1), 0nat),
            ("T_3"@, G::bytes(p.T_3), 0nat),
            ("T_4"@, G::bytes(p.T_4), 0nat),
            ("T_5"@, G::bytes(p.T_5), 0nat),
            ("T_6"@, G::bytes(p.T_6), 0nat),
            ("T_2"@, G::bytes(p.T_2), 0nat),
            ("x"@, Seq::<u8>::empty(), 64nat),
            ("t_x"@, le_bytes(p.t_x.value(), 32), 0nat),
            ("t_x_blinding"@, le_bytes(p.t_x_blinding.value(), 32), 0nat),
            ("e_blinding"@, le_bytes(p.e_blinding.value(), 32), 0nat),
            ("S_prime"@, G::bytes(p.S_prime), 0nat),
            ("T_1_prime"@, G::bytes(p.T_1_prime), 0nat),
            ("S1_prime"@, G::bytes(p.S1_prime), 0nat),
            ("S2_prime"@, G::bytes(p.S2_prime), 0nat),
            ("x_prime"@, Seq::<u8>::empty(), 64nat),
            ("tc_x"@, le_bytes(p.tc_x.value(), 32), 0nat),
            ("tc_x_blinding"@, le_bytes(p.tc_x_blinding.value(), 32), 0nat),
            ("ec_blinding"@, le_bytes(p.ec_blinding.value(), 32), 0nat),
            ("r_blinding"@, le_bytes(p.r_blinding.value(), 32), 0nat),
            ("t_cross"@, le_bytes(p.t_cross.value(), 32), 0nat),
            ("x_ipp"@, Seq::<u8>::empty(), 64nat),
            ("w_agg"@, Seq::<u8>::empty(), 64nat),
        ],
        p.log_ecp(log, n) == p.log_batch(log, n).push(("chall_batched_ecp"@, Seq::<u8>::empty(), 64nat)),
{
    let s: Log = seq![
        ("A_I"@, G::bytes(p.A_I), 0nat),
        ("A_O"@, G::bytes(p.A_O), 0nat),
        ("S"@, G::bytes(p.S), 0nat),
        ("y"@, Seq::<u8>::empty(), 64nat),
        ("z"@, Seq::<u8>::empty(), 64nat),
        ("T_1"@, G::bytes(p.T_1), 0nat),
        ("T_3"@, G::bytes(p.T_3), 0nat),
        ("T_4"@, G::bytes(p.T_4), 0nat),
        ("T_5"@, G::bytes(p.T_5), 0nat),
        ("T_6"@, G::bytes(p.T_6), 0nat),
        ("T_2"@, G::bytes(p.T_2), 0nat),
        ("x"@, Seq::<u8>::empty(), 64nat),
        ("t_x"@, le_bytes(p.t_x.value(), 32), 0nat),
        ("t_x_blinding"@, le_bytes(p.t_x_blinding.value(), 32), 0nat),
        ("e_blinding"@, le_bytes(p.e_blinding.value(), 32), 0nat),
        ("S_prime"@, G::bytes(p.S_prime), 0nat),
        ("T_1_prime"@, G::bytes(p.T_1_prime), 0nat),
        ("S1_prime"@, G::bytes(p.S1_prime), 0nat),
        ("S2_prime"@, G::bytes(p.S2_prime), 0nat),
        ("x_prime"@, Seq::<u8>::empty(), 64nat),
        ("tc_x"@, le_bytes(p.tc_x.value(), 32), 0nat),
        ("tc_x_blinding"@, le_bytes(p.tc_x_blinding.value(), 32), 0nat),
        ("ec_blinding"@, le_bytes(p.ec_blinding.value(), 32), 0nat),
        ("r_blinding"@, le_bytes(p.r_blinding.value(), 32), 0nat),
        ("t_cross"@, le_bytes(p.t_cross.value(), 32), 0nat),
        ("x_ipp"@, Seq::<u8>::empty(), 64nat),
        ("w_agg"@, Seq::<u8>::empty(), 64nat),
    ];
    assert(p.log_ipp(log) =~= log + s);
}

} // verus!
