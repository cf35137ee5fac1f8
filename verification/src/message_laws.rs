//! What the folding arguments and a shuffle put into the transcript, message by
//! message.

use vstd::prelude::*;
use vstd::utf8::encode_utf8;
use crate::bytes::{le_bytes, le_value};
use crate::ecp::{ecp_absorb, ecp_log, ecp_verify_log, prove_ecp};
use crate::group::{Field, Group};
use crate::ipa::{ipa_absorb, ipa_log, ipa_verify_log, prove_ipa};
use crate::modular::md;
use crate::shuffle::{inputs_log, shuffle_challenge, shuffle_log};
use crate::transcript::{Log, merlin_challenge};

verus! {

/// The name of an argument, the length of its vectors and its folding factor.
pub open spec fn head_messages(name: Seq<char>, n: int, k: int) -> Log {
    seq![
        ("protocol-name"@, encode_utf8(name), 0nat),
        ("n"@, le_bytes(n, 8), 0nat),
        ("k"@, le_bytes(k, 8), 0nat),
    ]
}

/// What comes between the cross terms of a round and the draw of its
/// challenge.
pub open spec fn end_messages(r: int) -> Log {
    seq![("challenge_prefix"@, encode_utf8("c_"@), 0nat), ("challenge_index"@, le_bytes(r, 8), 0nat)]
}

/// The first `count` cross terms of round `r`: the round, the number of the
/// term and the term.
pub open spec fn ipa_terms_messages<G: Group>(p: prove_ipa<G>, r: int, count: int) -> Log {
    Seq::new(
        (3 * count) as nat,
        |i: int|
            if i % 3 == 0 {
                ("U_round"@, le_bytes(r, 8), 0nat)
            } else if i % 3 == 1 {
                ("U_index"@, le_bytes(i / 3, 8), 0nat)
            } else {
                ("U_point"@, G::bytes(p.U_vecs@[r]@[i / 3]), 0nat)
            },
    )
}

/// The messages and draws of the first `r` rounds.
pub open spec fn ipa_rounds_messages<G: Group>(p: prove_ipa<G>, r: int) -> Log
    decreases r,
{
    if r <= 0 {
        Seq::empty()
    } else {
        ipa_rounds_messages(p, r - 1) + ipa_terms_messages(p, r - 1, 2 * p.k - 2) + end_messages(r - 1) + seq![
            ("challenge_separator"@, Seq::<u8>::empty(), 64nat),
        ]
    }
}

proof fn lemma_ipa_terms<G: Group>(p: prove_ipa<G>, log: Log, r: int, count: int)
    requires
        0 <= r < p.U_vecs@.len(),
        0 <= count <= p.U_vecs@[r]@.len(),
    ensures
        ipa_absorb(log, r, p.points()[r], count) == log + ipa_terms_messages(p, r, count),
    decreases count,
{
    let m = ipa_terms_messages(p, r, count);
    if count == 0 {
        assert(log + m =~= log);
    } else {
        lemma_ipa_terms(p, log, r, count - 1);
        let before = ipa_terms_messages(p, r, count - 1);
        let last: Log = seq![
            ("U_round"@, le_bytes(r, 8), 0nat),
            ("U_index"@, le_bytes(count - 1, 8), 0nat),
            ("U_point"@, G::bytes(p.U_vecs@[r]@[count - 1]), 0nat),
        ];
        assert(m =~= before + last);
        assert(ipa_absorb(log, r, p.points()[r], count) =~= log + before + last);
        assert(log + before + last =~= log + m);
    }
}

proof fn lemma_ipa_rounds<G: Group>(p: prove_ipa<G>, log: Log, r: int)
    requires
        0 <= r <= p.U_vecs@.len(),
        p.k >= 1,
        forall|i: int| 0 <= i < p.U_vecs@.len() ==> (#[trigger] p.U_vecs@[i])@.len() >= 2 * p.k - 2,
    ensures
        ipa_verify_log(log, p.points(), p.k as int, r) == log + ipa_rounds_messages(p, r),
    decreases r,
{
    if r == 0 {
        assert(log + ipa_rounds_messages(p, 0) =~= log);
    } else {
        lemma_ipa_rounds(p, log, r - 1);
        let before = log + ipa_rounds_messages(p, r - 1);
        assert(p.U_vecs@[r - 1]@.len() >= 2 * p.k - 2);
        lemma_ipa_terms(p, before, r - 1, 2 * p.k - 2);
        let terms = ipa_terms_messages(p, r - 1, 2 * p.k - 2);
        let draw: Log = seq![("challenge_separator"@, Seq::<u8>::empty(), 64nat)];
        assert(ipa_verify_log(log, p.points(), p.k as int, r) =~= before + terms + end_messages(r - 1) + draw);
        assert(before + terms + end_messages(r - 1) + draw =~= log + ipa_rounds_messages(p, r));
    }
}

/// An inner product argument puts its name and sizes into the transcript, then
/// round by round all cross terms with their numbers; the challenge of a round
/// is drawn after that.
pub proof fn law_ipa_messages<G: Group>(p: prove_ipa<G>, log: Log, n: int, r: int)
    requires
        p.k >= 1,
        forall|i: int| 0 <= i < p.U_vecs@.len() ==> (#[trigger] p.U_vecs@[i])@.len() >= 2 * p.k - 2,
    ensures
        p.log_after(log, n) == log + head_messages("k_bullet_delay"@, n, p.k as int) + ipa_rounds_messages(
            p,
            p.U_vecs@.len() as int,
        ),
        p.challenges(log, n).len() == p.U_vecs@.len(),
        0 <= r < p.U_vecs@.len() ==> p.challenges(log, n)[r] == md(
            le_value(
                merlin_challenge(
                    log + head_messages("k_bullet_delay"@, n, p.k as int) + ipa_rounds_messages(p, r)
                        + ipa_terms_messages(p, r, 2 * p.k - 2) + end_messages(r),
                    "challenge_separator"@,
                    64,
                ),
            ),
            G::Scalar::modulus(),
        ),
{
    let start = log + head_messages("k_bullet_delay"@, n, p.k as int);
    assert(ipa_log(log, n, p.k as int) =~= start);
    lemma_ipa_rounds(p, start, p.U_vecs@.len() as int);
    if 0 <= r < p.U_vecs@.len() {
        lemma_ipa_rounds(p, start, r);
        let before = start + ipa_rounds_messages(p, r);
        assert(p.U_vecs@[r]@.len() >= 2 * p.k - 2);
        lemma_ipa_terms(p, before, r, 2 * p.k - 2);
        let terms = ipa_terms_messages(p, r, 2 * p.k - 2);
        assert(crate::ipa::ipa_verify_round_log(start, p.points(), p.k as int, r) =~= before + terms + end_messages(
            r,
        ));
    }
}

/// The first `count` pairs of cross terms of round `r`: the round, the number
/// of the pair and its two terms.
pub open spec fn ecp_terms_messages<G: Group>(p: prove_ecp<G>, r: int, count: int) -> Log {
    Seq::new(
        (4 * count) as nat,
        |i: int|
            if i % 4 == 0 {
                ("A_round"@, le_bytes(r, 8), 0nat)
            } else if i % 4 == 1 {
                ("A_index"@, le_bytes(i / 4, 8), 0nat)
            } else if i % 4 == 2 {
                ("A_point_0"@, G::bytes(p.A_vecs@[r]@[i / 4]@[0]), 0nat)
            } else {
                ("A_point_1"@, G::bytes(p.A_vecs@[r]@[i / 4]@[1]), 0nat)
            },
    )
}

/// The messages and draws of the first `r` rounds.
pub open spec fn ecp_rounds_messages<G: Group>(p: prove_ecp<G>, r: int) -> Log
    decreases r,
{
    if r <= 0 {
        Seq::empty()
    } else {
        ecp_rounds_messages(p, r - 1) + ecp_terms_messages(p, r - 1, 2 * p.k - 2) + end_messages(r - 1) + seq![
            ("challenge_separator"@, Seq::<u8>::empty(), 64nat),
        ]
    }
}

proof fn lemma_ecp_terms<G: Group>(p: prove_ecp<G>, log: Log, r: int, count: int)
    requires
        0 <= r < p.A_vecs@.len(),
        0 <= count <= p.A_vecs@[r]@.len(),
    ensures
        ecp_absorb(log, r, p.points(0)[r], p.points(1)[r], count) == log + ecp_terms_messages(p, r, count),
    decreases count,
{
    let m = ecp_terms_messages(p, r, count);
    if count == 0 {
        assert(log + m =~= log);
    } else {
        lemma_ecp_terms(p, log, r, count - 1);
        let before = ecp_terms_messages(p, r, count - 1);
        let last: Log = seq![
            ("A_round"@, le_bytes(r, 8), 0nat),
            ("A_index"@, le_bytes(count - 1, 8), 0nat),
            ("A_point_0"@, G::bytes(p.A_vecs@[r]@[count - 1]@[0]), 0nat),
            ("A_point_1"@, G::bytes(p.A_vecs@[r]@[count - 1]@[1]), 0nat),
        ];
        assert(m =~= before + last);
        assert(ecp_absorb(log, r, p.points(0)[r], p.points(1)[r], count) =~= log + before + last);
        assert(log + before + last =~= log + m);
    }
}

proof fn lemma_ecp_rounds<G: Group>(p: prove_ecp<G>, log: Log, r: int)
    requires
        0 <= r <= p.A_vecs@.len(),
        p.k >= 1,
        forall|i: int| 0 <= i < p.A_vecs@.len() ==> (#[trigger] p.A_vecs@[i])@.len() >= 2 * p.k - 2,
    ensures
        ecp_verify_log(log, p.points(0), p.points(1), p.k as int, r) == log + ecp_rounds_messages(p, r),
    decreases r,
{
    if r == 0 {
        assert(log + ecp_rounds_messages(p, 0) =~= log);
    } else {
        lemma_ecp_rounds(p, log, r - 1);
        let before = log + ecp_rounds_messages(p, r - 1);
        assert(p.A_vecs@[r - 1]@.len() >= 2 * p.k - 2);
        lemma_ecp_terms(p, before, r - 1, 2 * p.k - 2);
        let terms = ecp_terms_messages(p, r - 1, 2 * p.k - 2);
        let draw: Log = seq![("challenge_separator"@, Seq::<u8>::empty(), 64nat)];
        assert(ecp_verify_log(log, p.points(0), p.points(1), p.k as int, r) =~= before + terms + end_messages(r - 1)
            + draw);
        assert(before + terms + end_messages(r - 1) + draw =~= log + ecp_rounds_messages(p, r));
    }
}

/// An argument for two sets of bases puts its name and sizes into the
/// transcript, then round by round all pairs of cross terms with their numbers;
/// the challenge of a round is drawn after that.
pub proof fn law_ecp_messages<G: Group>(p: prove_ecp<G>, log: Log, n: int, r: int)
    requires
        p.k >= 1,
        forall|i: int| 0 <= i < p.A_vecs@.len() ==> (#[trigger] p.A_vecs@[i])@.len() >= 2 * p.k - 2,
    ensures
        p.log_after(log, n) == log + head_messages("k_ipp_delay_2"@, n, p.k as int) + ecp_rounds_messages(
            p,
            p.A_vecs@.len() as int,
        ),
        p.challenges(log, n).len() == p.A_vecs@.len(),
        0 <= r < p.A_vecs@.len() ==> p.challenges(log, n)[r] == md(
            le_value(
                merlin_challenge(
                    log + head_messages("k_ipp_delay_2"@, n, p.k as int) + ecp_rounds_messages(p, r)
                        + ecp_terms_messages(p, r, 2 * p.k - 2) + end_messages(r),
                    "challenge_separator"@,
                    64,
                ),
            ),
            G::Scalar::modulus(),
        ),
{
    let start = log + head_messages("k_ipp_delay_2"@, n, p.k as int);
    assert(ecp_log(log, n, p.k as int) =~= start);
    lemma_ecp_rounds(p, start, p.A_vecs@.len() as int);
    if 0 <= r < p.A_vecs@.len() {
        lemma_ecp_rounds(p, start, r);
        let before = start + ecp_rounds_messages(p, r);
        assert(p.A_vecs@[r]@.len() >= 2 * p.k - 2);
        lemma_ecp_terms(p, before, r, 2 * p.k - 2);
        let terms = ecp_terms_messages(p, r, 2 * p.k - 2);
        assert(crate::ecp::ecp_verify_round_log(start, p.points(0), p.points(1), p.k as int, r) =~= before + terms
            + end_messages(r));
    }
}

/// A shuffle of `k` scalars puts its name, the number of scalars, the name of
/// the constraint system, the commitment and the number of inputs into the
/// transcript, and then draws its challenge.
pub proof fn law_shuffle_messages<G: Group>(log: Log, k: nat, v: G::Encoding)
    ensures
        ({
            let messages: Log = seq![
                ("dom-sep"@, encode_utf8("ShuffleProof"@), 0nat),
                ("k"@, le_bytes(md(k as int, G::Scalar::modulus()), 32), 0nat),
                ("dom-sep"@, encode_utf8("r1cs v1"@), 0nat),
                ("V"@, G::bytes(v), 0nat),
                ("m"@, le_bytes(k as int, 8), 0nat),
            ];
            &&& inputs_log::<G>(log, k, v) == log + messages
            &&& shuffle_challenge::<G>(log, k, v) == md(
                le_value(merlin_challenge(log + messages, "k-scalar shuffle challenge"@, 64)),
                G::Scalar::modulus(),
            )
            &&& shuffle_log::<G>(log, k, v) == (log + messages).push(
                ("k-scalar shuffle challenge"@, Seq::<u8>::empty(), 64nat),
            )
        }),
{
    let messages: Log = seq![
        ("dom-sep"@, encode_utf8("ShuffleProof"@), 0nat),
        ("k"@, le_bytes(md(k as int, G::Scalar::modulus()), 32), 0nat),
        ("dom-sep"@, encode_utf8("r1cs v1"@), 0nat),
        ("V"@, G::bytes(v), 0nat),
        ("m"@, le_bytes(k as int, 8), 0nat),
    ];
    assert(inputs_log::<G>(log, k, v) =~= log + messages);
}

} // verus!
