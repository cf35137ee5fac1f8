//! Which bytes are read, and as what.

use vstd::prelude::*;
use crate::bytes::{le_bytes, le_value, lemma_le_bytes_len, lemma_le_value_of_bytes, lemma_pow_small};
use crate::ecp::prove_ecp;
use crate::errors::ProofError;
use crate::group::Field;
use crate::ipa::prove_ipa;
use crate::p256::curve::Projective;
use crate::p256::field::{is_scalar, order};
use crate::p256::proof_bytes::{
    ecp_part, ipp_part, items_end, items_of, law_proof_round_trip, proof_is, proof_parses, proof_points,
    proof_scalars,
};
use crate::p256::serialization::{
    body_items, ecp_bytes, ecp_count, ecp_is, ecp_parses, ecp_regular, header_bytes, ipa_bytes, ipa_count,
    ipa_is, ipa_parses, ipa_regular, items_at, lemma_header_read, lemma_items_read, prefixed_all, same_ecp,
    same_ipa,
};
use crate::p256::read_laws::{law_proof_read, lemma_items_written};
use crate::r1cs::r1cs_proof::R1CSProof;
use crate::wire::joined;

verus! {

/// Every item from number `from` on starts with a number below the order of
/// the group, in thirty-two bytes.
pub open spec fn scalars_from(items: Seq<Seq<u8>>, from: int) -> bool {
    forall|i: int|
        from <= i < items.len() ==> (#[trigger] items[i]).len() >= 32 && le_value(items[i].take(32)) < order()
}

/// Three numbers of eight bytes and a list of items, each after its length in
/// four bytes.
pub open spec fn listed(k: int, d: int, m: int, items: Seq<Seq<u8>>) -> Seq<u8> {
    le_bytes(k, 8) + le_bytes(d, 8) + le_bytes(m, 8) + joined(prefixed_all(items, 4))
}

/// The numbers and the items are read as they were listed, whatever follows.
proof fn lemma_listed(k: int, d: int, m: int, items: Seq<Seq<u8>>, tail: Seq<u8>)
    requires
        0 <= k <= u64::MAX,
        0 <= d <= u64::MAX,
        0 <= m <= u64::MAX,
        forall|i: int| 0 <= i < items.len() ==> (#[trigger] items[i]).len() <= u32::MAX,
    ensures
        ({
            let b = listed(k, d, m, items) + tail;
            &&& b.len() >= 24
            &&& le_value(b.subrange(0, 8)) == k
            &&& le_value(b.subrange(8, 16)) == d
            &&& le_value(b.subrange(16, 24)) == m
            &&& items_at(b, 24, items.len(), 4) matches Some(t) && t.0 == items
        }),
{
    let head = header_bytes(k, d, m);
    let mid = joined(prefixed_all(items, 4));
    lemma_header_read(k, d, m, mid + tail);
    lemma_pow_small();
    lemma_items_read(head, items, tail, 4);
    assert(listed(k, d, m, items) + tail =~= head + (mid + tail));
    assert(head + mid + tail =~= head + (mid + tail));
}

/// Every list with the items that an inner product argument has is read, as the
/// argument with these items.
pub proof fn law_ipa_accepts(
    p: prove_ipa<Projective>,
    k: int,
    d: int,
    m: int,
    items: Seq<Seq<u8>>,
    tail: Seq<u8>,
)
    requires
        1 <= k,
        2 * k <= usize::MAX,
        0 <= d <= usize::MAX,
        0 <= m <= usize::MAX,
        items.len() == d * (2 * k - 2) + 2 * m,
        forall|i: int| 0 <= i < items.len() ==> (#[trigger] items[i]).len() <= u32::MAX,
        scalars_from(items, d * (2 * k - 2)),
    ensures
        ipa_parses(listed(k, d, m, items) + tail),
        ipa_is(p, listed(k, d, m, items) + tail) <==> {
            let (w, n) = (2 * k - 2, d * (2 * k - 2));
            &&& p.k == k
            &&& p.U_vecs@.len() == d
            &&& p.a_final@.len() == m
            &&& p.b_final@.len() == m
            &&& forall|r: int| 0 <= r < d ==> (#[trigger] p.U_vecs@[r])@.len() == w
            &&& forall|r: int, x: int|
                0 <= r < d && 0 <= x < w ==> (#[trigger] p.U_vecs@[r]@[x])@ == items[r * w + x]
            &&& forall|i: int|
                0 <= i < m ==> (#[trigger] p.a_final@[i]).value() == le_value(items[n + i].take(32))
            &&& forall|i: int|
                0 <= i < m ==> (#[trigger] p.b_final@[i]).value() == le_value(items[n + m + i].take(32))
        },
{
    let b = listed(k, d, m, items) + tail;
    lemma_listed(k, d, m, items, tail);
    assert(ipa_count(b) == items.len());
    assert(body_items(b, ipa_count(b)) == items);
    assert forall|i: int| d * (2 * k - 2) <= i < items.len() implies #[trigger] is_scalar(items[i]) by {}
}

/// Every list with the items that an argument for two sets of bases has is
/// read, as the argument with these items.
pub proof fn law_ecp_accepts(
    p: prove_ecp<Projective>,
    k: int,
    d: int,
    m: int,
    items: Seq<Seq<u8>>,
    tail: Seq<u8>,
)
    requires
        1 <= k,
        2 * k <= usize::MAX,
        0 <= d <= usize::MAX,
        0 <= m <= usize::MAX,
        items.len() == 2 * (d * (2 * k - 2)) + m,
        forall|i: int| 0 <= i < items.len() ==> (#[trigger] items[i]).len() <= u32::MAX,
        scalars_from(items, 2 * (d * (2 * k - 2))),
    ensures
        ecp_parses(listed(k, d, m, items) + tail),
        ecp_is(p, listed(k, d, m, items) + tail) <==> {
            let (w, n) = (2 * k - 2, 2 * (d * (2 * k - 2)));
            &&& p.k == k
            &&& p.A_vecs@.len() == d
            &&& p.z@.len() == m
            &&& forall|r: int| 0 <= r < d ==> (#[trigger] p.A_vecs@[r])@.len() == w
            &&& forall|r: int, x: int|
                0 <= r < d && 0 <= x < w ==> (#[trigger] p.A_vecs@[r]@[x])@[0]@ == items[2 * (r * w + x)]
                    && p.A_vecs@[r]@[x]@[1]@ == items[2 * (r * w + x) + 1]
            &&& forall|i: int| 0 <= i < m ==> (#[trigger] p.z@[i]).value() == le_value(items[n + i].take(32))
        },
{
    let b = listed(k, d, m, items) + tail;
    lemma_listed(k, d, m, items, tail);
    assert(ecp_count(b) == items.len());
    assert(body_items(b, ecp_count(b)) == items);
    assert forall|i: int| 2 * (d * (2 * k - 2)) <= i < items.len() implies #[trigger] is_scalar(items[i]) by {}
}

/// Thirteen points and eight scalars, each after its length in eight bytes,
/// and two arguments after their lengths are read as the proof with these
/// points, scalars and arguments, whatever follows.
pub proof fn law_proof_accepts(
    p: R1CSProof<Projective>,
    items: Seq<Seq<u8>>,
    ipp: Seq<u8>,
    ecp: Seq<u8>,
    tail: Seq<u8>,
)
    requires
        items.len() == 21,
        forall|i: int| 0 <= i < 21 ==> (#[trigger] items[i]).len() <= u64::MAX,
        scalars_from(items, 13),
        ipp.len() <= u64::MAX,
        ecp.len() <= u64::MAX,
        ipa_parses(ipp),
        ecp_parses(ecp),
    ensures
        ({
            let b = joined(prefixed_all(items, 8)) + le_bytes(ipp.len() as int, 8) + le_bytes(ecp.len() as int, 8)
                + ipp + ecp + tail;
            &&& proof_parses(b)
            &&& proof_is(p, b) <==> {
                &&& forall|i: int| 0 <= i < 13 ==> #[trigger] proof_points(p)[i] == items[i]
                &&& forall|i: int|
                    0 <= i < 8 ==> (#[trigger] proof_scalars(p)[i]).value() == le_value(items[13 + i].take(32))
                &&& ipa_is(p.ipp_proof, ipp)
                &&& ecp_is(p.ecp_batched, ecp)
            }
        }),
{
    let mid = joined(prefixed_all(items, 8));
    let (li, le) = (le_bytes(ipp.len() as int, 8), le_bytes(ecp.len() as int, 8));
    let after = li + le + ipp + ecp + tail;
    let b = mid + li + le + ipp + ecp + tail;
    lemma_pow_small();
    lemma_items_read(Seq::empty(), items, after, 8);
    assert(Seq::<u8>::empty() + mid + after =~= b);
    let end = mid.len() as int;
    assert(items_at(b, 0, 21, 8) == Some((items, end)));
    lemma_le_bytes_len(ipp.len() as int, 8);
    lemma_le_bytes_len(ecp.len() as int, 8);
    lemma_le_value_of_bytes(ipp.len() as int, 8);
    lemma_le_value_of_bytes(ecp.len() as int, 8);
    assert(items_of(b) == items && items_end(b) == end);
    assert(b.subrange(end, end + 8) =~= li);
    assert(b.subrange(end + 8, end + 16) =~= le);
    assert(ipp_part(b) =~= ipp);
    assert(ecp_part(b) =~= ecp);
    assert forall|i: int| 13 <= i < 21 implies #[trigger] is_scalar(items_of(b)[i]) by {
        assert(items[i].len() >= 32);
    }
}

/// The points of a proof, and its scalars.
pub proof fn law_proof_parts(p: R1CSProof<Projective>)
    ensures
        proof_points(p) == seq![
            p.A_I@,
            p.A_O@,
            p.S@,
            p.T_1@,
            p.T_2@,
            p.T_3@,
            p.T_4@,
            p.T_5@,
            p.T_6@,
            p.S_prime@,
            p.T_1_prime@,
            p.S1_prime@,
            p.S2_prime@,
        ],
        proof_scalars(p) == seq![
            p.t_x,
            p.t_x_blinding,
            p.e_blinding,
            p.tc_x,
            p.tc_x_blinding,
            p.ec_blinding,
            p.t_cross,
            p.r_blinding,
        ],
{
}

/// Whoever reads a proof and writes it gets no more bytes than were there, and
/// if as many, the same; the proof holds what stands in the bytes.
pub proof fn law_written_as_read(b: &[u8], p: R1CSProof<Projective>, c: Vec<u8>)
    requires
        call_ensures(R1CSProof::<Projective>::from_bytes, (b,), Ok::<R1CSProof<Projective>, ProofError>(p)),
        call_ensures(R1CSProof::<Projective>::to_bytes, (&p,), c),
    ensures
        c@.len() <= b@.len(),
        c@.len() == b@.len() ==> c@ == b@,
        ({
            let items = items_of(b@);
            &&& items.len() == 21
            &&& items_end(b@) <= b@.len()
            &&& joined(prefixed_all(items, 8)) == b@.subrange(0, items_end(b@))
            &&& forall|i: int| 0 <= i < 13 ==> #[trigger] proof_points(p)[i] == items[i]
            &&& forall|i: int|
                0 <= i < 8 ==> (#[trigger] proof_scalars(p)[i]).value() == le_value(items[13 + i].take(32))
            &&& forall|i: int| 13 <= i < 21 ==> le_value((#[trigger] items[i]).take(32)) < order()
        }),
{
    law_proof_read(p, b@);
    lemma_items_written(b@, 0, 21, 8);
    let items = items_of(b@);
    assert forall|i: int| 13 <= i < 21 implies le_value((#[trigger] items[i]).take(32)) < order() by {
        assert(is_scalar(items_of(b@)[i]));
    }
}

/// Whoever reads what was written for a proof gets a proof, which holds the
/// same.
pub proof fn law_read_as_written(
    p: R1CSProof<Projective>,
    c: Vec<u8>,
    b: &[u8],
    r: Result<R1CSProof<Projective>, ProofError>,
)
    requires
        ipa_regular(p.ipp_proof),
        ecp_regular(p.ecp_batched),
        ipa_bytes(p.ipp_proof).len() <= u64::MAX,
        ecp_bytes(p.ecp_batched).len() <= u64::MAX,
        forall|i: int| 0 <= i < 13 ==> (#[trigger] proof_points(p)[i]).len() <= u64::MAX,
        call_ensures(R1CSProof::<Projective>::to_bytes, (&p,), c),
        b@ == c@,
        call_ensures(R1CSProof::<Projective>::from_bytes, (b,), r),
    ensures
        r matches Ok(q) && proof_points(q) == proof_points(p) && same_ipa(q.ipp_proof, p.ipp_proof) && same_ecp(
            q.ecp_batched,
            p.ecp_batched,
        ) && forall|i: int|
            0 <= i < 8 ==> (#[trigger] proof_scalars(q)[i]).value() == proof_scalars(p)[i].value(),
{
    law_proof_round_trip(p, p);
    law_proof_round_trip(p, r->Ok_0);
}

} // verus!
