//! Which bytes are read, and as what.

use vstd::prelude::*;
use crate::bytes::le_value;
use crate::ecp::prove_ecp;
use crate::errors::ProofError;
use crate::group::Field;
use crate::ipa::prove_ipa;
use crate::r1cs::r1cs_proof::R1CSProof;
use crate::ristretto::point::RistrettoPoint;
use crate::ristretto::proof_bytes::{
    law_proof_round_trip, proof_bytes, proof_is, proof_parses, proof_points, proof_scalars,
};
use crate::ristretto::read_laws::{law_proof_read, zero_filled};
use crate::ristretto::scalar::order;
use crate::ristretto::serialization::{
    are_pairs, are_points, are_scalars, ecp_is, ecp_parses, ecp_parts, ecp_regular, ipa_is, ipa_parses,
    ipa_parts, ipa_regular, number, same_ecp, same_ipa, scalars_parse, word,
};
use crate::wire::joined;

verus! {

/// The number in eight bytes.
pub open spec fn number_at(b: Seq<u8>, pos: int) -> int {
    le_value(b.subrange(pos, pos + 8))
}

/// The number in thirty-two bytes.
pub open spec fn wide_number_at(b: Seq<u8>, pos: int) -> int {
    le_value(b.subrange(pos, pos + 32))
}

/// Bytes are read as an inner product argument if and only if they hold the
/// numbers, points and canonical scalars of one.
pub proof fn law_ipa_accepts(p: prove_ipa<RistrettoPoint>, b: Seq<u8>)
    ensures
        ({
            let (k, d, m) = (number_at(b, 0), number_at(b, 32), number_at(b, 64));
            let (w, n) = (2 * k - 2, 3 + d * (2 * k - 2));
            &&& ipa_parses(b) <==> {
                &&& b.len() >= 96
                &&& 1 <= k
                &&& 2 * k <= usize::MAX
                &&& d <= usize::MAX
                &&& m <= usize::MAX
                &&& 32 * (n + 2 * m) <= b.len()
                &&& forall|i: int|
                    n <= i < n + 2 * m ==> #[trigger] wide_number_at(b, 32 * i) < order()
            }
            &&& ipa_parses(b) ==> (ipa_is(p, b) <==> {
                &&& p.k == k
                &&& p.U_vecs@.len() == d
                &&& p.a_final@.len() == m
                &&& p.b_final@.len() == m
                &&& forall|r: int| 0 <= r < d ==> (#[trigger] p.U_vecs@[r])@.len() == w
                &&& forall|r: int, x: int|
                    0 <= r < d && 0 <= x < w ==> (#[trigger] p.U_vecs@[r]@[x]).0@ == b.subrange(
                        32 * (3 + (r * w + x)),
                        32 * (3 + (r * w + x)) + 32,
                    )
                &&& forall|i: int|
                    0 <= i < m ==> (#[trigger] p.a_final@[i]).value() == wide_number_at(b, 32 * (n + i))
                &&& forall|i: int|
                    0 <= i < m ==> (#[trigger] p.b_final@[i]).value() == wide_number_at(b, 32 * (n + m + i))
            })
        }),
{
    let (k, d, m) = (number_at(b, 0), number_at(b, 32), number_at(b, 64));
    let (w, n) = (2 * k - 2, 3 + d * (2 * k - 2));
    lemma_numbers(b);
    lemma_scalars_parse(b, n, m);
    lemma_scalars_parse(b, n + m, m);
    let all = forall|i: int| n <= i < n + 2 * m ==> #[trigger] wide_number_at(b, 32 * i) < order();
    let first = forall|i: int| n <= i < n + m ==> #[trigger] wide_number_at(b, 32 * i) < order();
    let second = forall|i: int| n + m <= i < n + m + m ==> #[trigger] wide_number_at(b, 32 * i) < order();
    assert(all <==> first && second);
    if ipa_parses(b) {
        assert(are_points(p.U_vecs@, b, 3, w) <==> {
            &&& forall|r: int| 0 <= r < p.U_vecs@.len() ==> (#[trigger] p.U_vecs@[r])@.len() == w
            &&& forall|r: int, x: int|
                0 <= r < p.U_vecs@.len() && 0 <= x < w ==> (#[trigger] p.U_vecs@[r]@[x]).0@ == b.subrange(
                    32 * (3 + (r * w + x)),
                    32 * (3 + (r * w + x)) + 32,
                )
        });
        lemma_are_scalars(p.a_final@, b, n);
        lemma_are_scalars(p.b_final@, b, n + m);
    }
}

/// The three numbers at the start.
proof fn lemma_numbers(b: Seq<u8>)
    ensures
        number(b, 0) == number_at(b, 0),
        number(b, 1) == number_at(b, 32),
        number(b, 2) == number_at(b, 64),
        number_at(b, 0) >= 0,
        number_at(b, 32) >= 0,
        number_at(b, 64) >= 0,
{
    crate::bytes::lemma_le_value_range(b.subrange(0, 8));
    crate::bytes::lemma_le_value_range(b.subrange(32, 40));
    crate::bytes::lemma_le_value_range(b.subrange(64, 72));
}

proof fn lemma_scalars_parse(b: Seq<u8>, from: int, m: int)
    ensures
        scalars_parse(b, from, m) <==> 32 * (from + m) <= b.len() && forall|i: int|
            from <= i < from + m ==> #[trigger] wide_number_at(b, 32 * i) < order(),
{
    if scalars_parse(b, from, m) {
        assert forall|i: int| from <= i < from + m implies #[trigger] wide_number_at(b, 32 * i) < order() by {
            assert(le_value(word(b, from + (i - from))) < order());
        }
    }
    if forall|i: int| from <= i < from + m ==> #[trigger] wide_number_at(b, 32 * i) < order() {
        assert forall|i: int| 0 <= i < m implies le_value(#[trigger] word(b, from + i)) < order() by {
            assert(wide_number_at(b, 32 * (from + i)) < order());
        }
    }
}

proof fn lemma_are_scalars(s: Seq<crate::ristretto::scalar::Scalar>, b: Seq<u8>, from: int)
    ensures
        are_scalars(s, b, from) <==> forall|i: int|
            0 <= i < s.len() ==> (#[trigger] s[i]).value() == wide_number_at(b, 32 * (from + i)),
{
}

/// Bytes are read as an argument for two sets of bases if and only if they
/// hold the numbers, pairs of points and canonical scalars of one.
pub proof fn law_ecp_accepts(p: prove_ecp<RistrettoPoint>, b: Seq<u8>)
    ensures
        ({
            let (k, d, m) = (number_at(b, 0), number_at(b, 32), number_at(b, 64));
            let (w, n) = (2 * k - 2, 3 + 2 * (d * (2 * k - 2)));
            &&& ecp_parses(b) <==> {
                &&& b.len() >= 96
                &&& 1 <= k
                &&& 2 * k <= usize::MAX
                &&& d <= usize::MAX
                &&& m <= usize::MAX
                &&& 32 * (n + m) <= b.len()
                &&& forall|i: int| n <= i < n + m ==> #[trigger] wide_number_at(b, 32 * i) < order()
            }
            &&& ecp_parses(b) ==> (ecp_is(p, b) <==> {
                &&& p.k == k
                &&& p.A_vecs@.len() == d
                &&& p.z@.len() == m
                &&& forall|r: int| 0 <= r < d ==> (#[trigger] p.A_vecs@[r])@.len() == w
                &&& forall|r: int, x: int|
                    0 <= r < d && 0 <= x < w ==> (#[trigger] p.A_vecs@[r]@[x])@[0].0@ == b.subrange(
                        32 * (3 + 2 * (r * w + x)),
                        32 * (3 + 2 * (r * w + x)) + 32,
                    ) && p.A_vecs@[r]@[x]@[1].0@ == b.subrange(
                        32 * (3 + 2 * (r * w + x) + 1),
                        32 * (3 + 2 * (r * w + x) + 1) + 32,
                    )
                &&& forall|i: int|
                    0 <= i < m ==> (#[trigger] p.z@[i]).value() == wide_number_at(b, 32 * (n + i))
            })
        }),
{
    let (k, d, m) = (number_at(b, 0), number_at(b, 32), number_at(b, 64));
    let (w, n) = (2 * k - 2, 3 + 2 * (d * (2 * k - 2)));
    lemma_numbers(b);
    lemma_scalars_parse(b, n, m);
    if ecp_parses(b) {
        assert(are_pairs(p.A_vecs@, b, 3, w) <==> {
            &&& forall|r: int| 0 <= r < p.A_vecs@.len() ==> (#[trigger] p.A_vecs@[r])@.len() == w
            &&& forall|r: int, x: int|
                0 <= r < p.A_vecs@.len() && 0 <= x < w ==> (#[trigger] p.A_vecs@[r]@[x])@[0].0@ == b.subrange(
                    32 * (3 + 2 * (r * w + x)),
                    32 * (3 + 2 * (r * w + x)) + 32,
                ) && p.A_vecs@[r]@[x]@[1].0@ == b.subrange(
                    32 * (3 + 2 * (r * w + x) + 1),
                    32 * (3 + 2 * (r * w + x) + 1) + 32,
                )
        });
        lemma_are_scalars(p.z@, b, n);
    }
}

/// Bytes are read as a proof if and only if they hold thirteen points, eight
/// canonical scalars and two arguments of the lengths that stand before them.
pub proof fn law_proof_accepts(p: R1CSProof<RistrettoPoint>, b: Seq<u8>)
    ensures
        ({
            let (l, m) = (number_at(b, 672), number_at(b, 680));
            let (ipp, ecp) = (b.subrange(688, 688 + l), b.subrange(688 + l, 688 + l + m));
            &&& proof_parses(b) <==> {
                &&& b.len() >= 688
                &&& forall|i: int| 13 <= i < 21 ==> #[trigger] wide_number_at(b, 32 * i) < order()
                &&& b.len() == 688 + l + m
                &&& ipa_parses(ipp)
                &&& ecp_parses(ecp)
            }
            &&& proof_parses(b) && proof_is(p, b) ==> {
                &&& p.A_I.0@ == b.subrange(0, 32)
                &&& p.A_O.0@ == b.subrange(32, 64)
                &&& p.S.0@ == b.subrange(64, 96)
                &&& p.T_1.0@ == b.subrange(96, 128)
                &&& p.T_2.0@ == b.subrange(128, 160)
                &&& p.T_3.0@ == b.subrange(160, 192)
                &&& p.T_4.0@ == b.subrange(192, 224)
                &&& p.T_5.0@ == b.subrange(224, 256)
                &&& p.T_6.0@ == b.subrange(256, 288)
                &&& p.S_prime.0@ == b.subrange(288, 320)
                &&& p.T_1_prime.0@ == b.subrange(320, 352)
                &&& p.S1_prime.0@ == b.subrange(352, 384)
                &&& p.S2_prime.0@ == b.subrange(384, 416)
                &&& p.t_x.value() == wide_number_at(b, 416)
                &&& p.t_x_blinding.value() == wide_number_at(b, 448)
                &&& p.e_blinding.value() == wide_number_at(b, 480)
                &&& p.tc_x.value() == wide_number_at(b, 512)
                &&& p.tc_x_blinding.value() == wide_number_at(b, 544)
                &&& p.ec_blinding.value() == wide_number_at(b, 576)
                &&& p.t_cross.value() == wide_number_at(b, 608)
                &&& p.r_blinding.value() == wide_number_at(b, 640)
                &&& ipa_is(p.ipp_proof, ipp)
                &&& ecp_is(p.ecp_batched, ecp)
            }
        }),
{
    lemma_scalars_parse(b, 13, 8);
    let canonical = forall|i: int| 13 <= i < 21 ==> le_value(#[trigger] word(b, i)) < order();
    if canonical {
        assert forall|i: int| 13 <= i < 21 implies #[trigger] wide_number_at(b, 32 * i) < order() by {
            assert(le_value(word(b, i)) < order());
        }
    }
    if forall|i: int| 13 <= i < 21 ==> #[trigger] wide_number_at(b, 32 * i) < order() {
        assert forall|i: int| 13 <= i < 21 implies le_value(#[trigger] word(b, i)) < order() by {
            assert(wide_number_at(b, 32 * i) < order());
        }
    }
    if proof_parses(b) && proof_is(p, b) {
        let (s, t) = (proof_points(p), proof_scalars(p));
        assert(s[0] == word(b, 0) && s[1] == word(b, 1) && s[2] == word(b, 2) && s[3] == word(b, 3));
        assert(s[4] == word(b, 4) && s[5] == word(b, 5) && s[6] == word(b, 6) && s[7] == word(b, 7));
        assert(s[8] == word(b, 8) && s[9] == word(b, 9) && s[10] == word(b, 10) && s[11] == word(b, 11));
        assert(s[12] == word(b, 12));
        assert(t[0] == le_value(word(b, 13)) && t[1] == le_value(word(b, 14)) && t[2] == le_value(word(b, 15)));
        assert(t[3] == le_value(word(b, 16)) && t[4] == le_value(word(b, 17)) && t[5] == le_value(word(b, 18)));
        assert(t[6] == le_value(word(b, 19)) && t[7] == le_value(word(b, 20)));
    }
}

/// Whoever reads a proof and writes it gets the bytes back, unless a number in
/// front of an argument, which takes up thirty-two bytes, has more than the
/// eight that are read, or something follows an argument within its length.
pub proof fn law_written_as_read(b: &[u8], p: R1CSProof<RistrettoPoint>, c: Vec<u8>)
    requires
        call_ensures(R1CSProof::<RistrettoPoint>::from_bytes, (b,), Ok::<R1CSProof<RistrettoPoint>, ProofError>(p)),
        call_ensures(R1CSProof::<RistrettoPoint>::to_bytes, (&p,), c),
    ensures
        c@.take(672) == b@.take(672),
        c@.len() <= b@.len(),
        ({
            let ipp = joined(ipa_parts(p.ipp_proof)).len() as int;
            c@.len() == b@.len() && zero_filled(b@.skip(688)) && zero_filled(b@.skip(688 + ipp)) ==> c@ == b@
        }),
{
    law_proof_read(p, b@);
}

/// Whoever reads what was written for a proof gets a proof, which holds the
/// same and is written the same.
pub proof fn law_read_as_written(
    p: R1CSProof<RistrettoPoint>,
    c: Vec<u8>,
    b: &[u8],
    r: Result<R1CSProof<RistrettoPoint>, ProofError>,
)
    requires
        ipa_regular(p.ipp_proof),
        ecp_regular(p.ecp_batched),
        c@.len() <= u64::MAX,
        call_ensures(R1CSProof::<RistrettoPoint>::to_bytes, (&p,), c),
        b@ == c@,
        call_ensures(R1CSProof::<RistrettoPoint>::from_bytes, (b,), r),
    ensures
        r matches Ok(q) && proof_points(q) == proof_points(p) && proof_scalars(q) == proof_scalars(p) && same_ipa(
            q.ipp_proof,
            p.ipp_proof,
        ) && same_ecp(q.ecp_batched, p.ecp_batched) && forall|e: Vec<u8>| #[trigger]
            call_ensures(R1CSProof::<RistrettoPoint>::to_bytes, (&q,), e) ==> e@.take(672) == c@.take(672),
{
    let ipp = joined(ipa_parts(p.ipp_proof));
    let ecp = joined(ecp_parts(p.ecp_batched));
    assert(c@ == proof_bytes(p));
    assert(ipp.len() + ecp.len() <= c@.len());
    law_proof_round_trip(p, p);
    let q = r->Ok_0;
    law_proof_round_trip(p, q);
    law_proof_read(q, b@);
}

} // verus!
