//! What was read is written as it was.

use vstd::prelude::*;
use crate::bytes::{
    le_bytes, le_value, lemma_le_bytes_len, lemma_le_bytes_of_value, lemma_le_value_range, lemma_pow_small,
};
use crate::ecp::prove_ecp;
use crate::group::{Field, values};
use crate::ipa::prove_ipa;
use crate::r1cs::r1cs_proof::R1CSProof;
use crate::ristretto::point::RistrettoPoint;
use crate::ristretto::proof_bytes::{
    ecp_bytes, ecp_len, ipp_bytes, ipp_len, law_proof_round_trip, proof_bytes, proof_is, proof_parses,
    proof_points, proof_regular, proof_scalars, proof_words,
};
use crate::ristretto::scalar::Scalar;
use crate::ristretto::serialization::{
    ecp_is, ecp_parses, ecp_parts, ipa_is, ipa_parses, ipa_parts, lemma_ecp_parts, lemma_ipa_parts, number,
    pair_bytes, pair_parts, point_parts, row_bytes, scalar_parts, terms_per_round, word,
};
use crate::wire::{joined, lemma_joined_words, lemma_row_entries_len, lemma_row_entry, lemma_wide_number};

verus! {

/// The position belongs to the upper bytes of one of the three numbers at the
/// start of a folding argument. A reader does not look at them.
pub open spec fn is_filler(i: int) -> bool {
    i < 96 && i % 32 >= 8
}

/// Nothing but what a writer puts there stands in the upper bytes of the three
/// numbers.
pub open spec fn zero_filled(b: Seq<u8>) -> bool {
    forall|i: int| 0 <= i < b.len() && is_filler(i) ==> #[trigger] b[i] == 0
}

/// `w` are the first bytes of `b`, but for the upper bytes of the three
/// numbers.
pub open spec fn read_from(w: Seq<u8>, b: Seq<u8>) -> bool {
    &&& w.len() <= b.len()
    &&& forall|i: int| 0 <= i < w.len() && !is_filler(i) ==> #[trigger] w[i] == b[i]
}

/// The number of eight bytes that were read, written with 32.
proof fn lemma_number_word(b: Seq<u8>, i: int)
    requires
        0 <= i,
        32 * i + 32 <= b.len(),
    ensures
        le_bytes(number(b, i), 32).len() == 32,
        forall|j: int| 0 <= j < 8 ==> #[trigger] le_bytes(number(b, i), 32)[j] == b[32 * i + j],
        forall|j: int| 8 <= j < 32 ==> #[trigger] le_bytes(number(b, i), 32)[j] == 0,
{
    let s = b.subrange(32 * i, 32 * i + 8);
    lemma_le_value_range(s);
    lemma_pow_small();
    lemma_wide_number(le_value(s));
    lemma_le_bytes_of_value(s);
    lemma_le_bytes_len(le_value(s), 32);
    assert(le_bytes(number(b, i), 8) == s);
}

/// Parts of 32 bytes that are those of `b`.
proof fn lemma_words_read(parts: Seq<Seq<u8>>, b: Seq<u8>)
    requires
        parts.len() >= 3,
        32 * parts.len() <= b.len(),
        forall|i: int| 0 <= i < parts.len() ==> (#[trigger] parts[i]).len() == 32,
        forall|i: int| 0 <= i < 3 ==> #[trigger] parts[i] == le_bytes(number(b, i), 32),
        forall|i: int| 3 <= i < parts.len() ==> #[trigger] parts[i] == word(b, i),
    ensures
        joined(parts).len() == 32 * parts.len(),
        read_from(joined(parts), b),
        zero_filled(joined(parts)),
{
    let w = joined(parts);
    lemma_joined_words(parts, 32);
    lemma_number_word(b, 0);
    lemma_number_word(b, 1);
    lemma_number_word(b, 2);
    assert forall|i: int| 0 <= i < w.len() implies (!is_filler(i) ==> #[trigger] w[i] == b[i]) && (is_filler(i)
        ==> w[i] == 0) by {
        let (x, j) = (i / 32, i % 32);
        assert(w.subrange(32 * x, 32 * x + 32) == parts[x]);
        assert(w[i] == w.subrange(32 * x, 32 * x + 32)[j]);
        if x < 3 {
            assert(parts[x] == le_bytes(number(b, x), 32));
        } else {
            assert(word(b, x)[j] == b[i]);
        }
    }
}

/// Scalars that were read are written as they were.
proof fn lemma_scalar_words(s: Seq<Scalar>, b: Seq<u8>, from: int)
    requires
        0 <= from,
        32 * (from + s.len()) <= b.len(),
        forall|i: int| 0 <= i < s.len() ==> (#[trigger] s[i]).value() == le_value(word(b, from + i)),
    ensures
        forall|i: int| 0 <= i < s.len() ==> #[trigger] scalar_parts(s)[i] == word(b, from + i),
{
    assert forall|i: int| 0 <= i < s.len() implies #[trigger] scalar_parts(s)[i] == word(b, from + i) by {
        assert(s[i].value() == le_value(word(b, from + i)));
        lemma_le_bytes_of_value(word(b, from + i));
    }
}

/// Whoever reads an inner product argument and writes it gets the bytes back,
/// but for the upper bytes of the three numbers and what follows the argument.
pub proof fn law_ipa_read(p: prove_ipa<RistrettoPoint>, b: Seq<u8>)
    requires
        ipa_parses(b),
        ipa_is(p, b),
    ensures
        read_from(joined(ipa_parts(p)), b),
        zero_filled(b) && b.len() == joined(ipa_parts(p)).len() ==> joined(ipa_parts(p)) == b,
{
    let parts = ipa_parts(p);
    let (k, d, m) = (number(b, 0), number(b, 1), number(b, 2));
    let w = terms_per_round(k);
    let rows = Seq::new(p.U_vecs@.len(), |r: int| row_bytes(p.U_vecs@[r]@));
    lemma_ipa_parts(p);
    assert forall|r: int| 0 <= r < rows.len() implies (#[trigger] rows[r]).len() == w by {
        assert(p.U_vecs@[r]@.len() == w);
    }
    lemma_row_entries_len(rows, w);
    assert(0 <= d * w) by (nonlinear_arith)
        requires
            d >= 0,
            w >= 0,
    ;
    let from = 3 + d * w;
    lemma_scalar_words(p.a_final@, b, from);
    lemma_scalar_words(p.b_final@, b, from + m);
    assert forall|i: int| 3 <= i < parts.len() implies #[trigger] parts[i] == word(b, i) by {
        if i < from {
            let t = i - 3;
            assert(w > 0) by (nonlinear_arith)
                requires
                    0 <= t < d * w,
                    w >= 0,
            ;
            let (r, x) = (t / w, t % w);
            vstd::arithmetic::div_mod::lemma_fundamental_div_mod(t, w);
            vstd::arithmetic::div_mod::lemma_mod_bound(t, w);
            assert(w * r == r * w) by (nonlinear_arith);
            assert(0 <= r < d) by (nonlinear_arith)
                requires
                    0 <= t < d * w,
                    t == r * w + x,
                    0 <= x < w,
            ;
            lemma_row_entry(rows, w, r, x);
            assert(p.U_vecs@[r]@[x].0@ == word(b, 3 + (r * w + x)));
            assert(parts[i] == point_parts(p.U_vecs@)[t]);
            assert(rows[r][x] == p.U_vecs@[r]@[x].0@);
        } else if i < from + m {
            assert(parts[i] == scalar_parts(p.a_final@)[i - from]);
        } else {
            assert(parts[i] == scalar_parts(p.b_final@)[i - from - m]);
        }
    }
    lemma_words_read(parts, b);
    if zero_filled(b) && b.len() == joined(parts).len() {
        assert(joined(parts) =~= b);
    }
}

/// Whoever reads an argument for two sets of bases and writes it gets the bytes
/// back, but for the upper bytes of the three numbers and what follows the
/// argument.
pub proof fn law_ecp_read(p: prove_ecp<RistrettoPoint>, b: Seq<u8>)
    requires
        ecp_parses(b),
        ecp_is(p, b),
    ensures
        read_from(joined(ecp_parts(p)), b),
        zero_filled(b) && b.len() == joined(ecp_parts(p)).len() ==> joined(ecp_parts(p)) == b,
{
    let parts = ecp_parts(p);
    let (k, d, m) = (number(b, 0), number(b, 1), number(b, 2));
    let w = terms_per_round(k);
    let rows = Seq::new(p.A_vecs@.len(), |r: int| pair_bytes(p.A_vecs@[r]@));
    lemma_ecp_parts(p);
    assert forall|r: int| 0 <= r < rows.len() implies (#[trigger] rows[r]).len() == 2 * w by {
        assert(p.A_vecs@[r]@.len() == w);
    }
    lemma_row_entries_len(rows, 2 * w);
    assert(0 <= d * w) by (nonlinear_arith)
        requires
            d >= 0,
            w >= 0,
    ;
    assert(d * (2 * w) == 2 * (d * w)) by (nonlinear_arith);
    let from = 3 + 2 * (d * w);
    lemma_scalar_words(p.z@, b, from);
    assert forall|i: int| 3 <= i < parts.len() implies #[trigger] parts[i] == word(b, i) by {
        if i < from {
            let t = i - 3;
            let v = 2 * w;
            assert(v > 0) by (nonlinear_arith)
                requires
                    0 <= t < d * v,
                    v >= 0,
            ;
            let (r, y) = (t / v, t % v);
            vstd::arithmetic::div_mod::lemma_fundamental_div_mod(t, v);
            vstd::arithmetic::div_mod::lemma_mod_bound(t, v);
            assert(v * r == r * v) by (nonlinear_arith);
            assert(0 <= r < d) by (nonlinear_arith)
                requires
                    0 <= t < d * v,
                    t == r * v + y,
                    0 <= y < v,
            ;
            let x = y / 2;
            lemma_row_entry(rows, v, r, y);
            assert(r * v == 2 * (r * w)) by (nonlinear_arith)
                requires
                    v == 2 * w,
            ;
            assert(p.A_vecs@[r]@[x]@[0].0@ == word(b, 3 + 2 * (r * w + x)));
            assert(p.A_vecs@[r]@[x]@[1].0@ == word(b, 3 + 2 * (r * w + x) + 1));
            assert(parts[i] == pair_parts(p.A_vecs@)[t]);
            assert(rows[r][y] == p.A_vecs@[r]@[y / 2]@[y % 2].0@);
        } else {
            assert(parts[i] == scalar_parts(p.z@)[i - from]);
        }
    }
    lemma_words_read(parts, b);
    if zero_filled(b) && b.len() == joined(parts).len() {
        assert(joined(parts) =~= b);
    }
}

/// Whoever reads a proof and writes it gets the bytes back: all points and
/// scalars, and the folding arguments but for bytes that a reader does not look
/// at. If there are none of those, these are all the bytes.
pub proof fn law_proof_read(p: R1CSProof<RistrettoPoint>, b: Seq<u8>)
    requires
        proof_parses(b),
        proof_is(p, b),
    ensures
        proof_bytes(p).take(672) == b.take(672),
        ({
            let ipp = joined(ipa_parts(p.ipp_proof));
            let ecp = joined(ecp_parts(p.ecp_batched));
            &&& read_from(ipp, b.skip(688))
            &&& proof_bytes(p).len() == ipp.len() + ecp.len() + 688
            &&& ipp.len() + ecp.len() + 688 <= b.len()
            &&& read_from(ecp, b.skip(b.len() - le_value(b.subrange(680, 688))))
            &&& ipp.len() + ecp.len() + 688 == b.len() && zero_filled(b.skip(688)) && zero_filled(
                b.skip(688 + ipp.len() as int),
            ) ==> proof_bytes(p) == b
        }),
{
    let words = proof_words(p);
    let ipp = joined(ipa_parts(p.ipp_proof));
    let ecp = joined(ecp_parts(p.ecp_batched));
    let (bi, be) = (ipp_bytes(b), ecp_bytes(b));
    lemma_le_value_range(b.subrange(672, 680));
    lemma_le_value_range(b.subrange(680, 688));
    law_ipa_read(p.ipp_proof, bi);
    law_ecp_read(p.ecp_batched, be);
    assert forall|i: int| 0 <= i < words.len() implies (#[trigger] words[i]) == word(b, i) by {
        if i < 13 {
            assert(proof_points(p)[i] == word(b, i));
        } else {
            assert(proof_scalars(p)[i - 13] == le_value(word(b, 13 + (i - 13))));
            lemma_le_bytes_of_value(word(b, i));
        }
    }
    assert forall|i: int| 0 <= i < words.len() implies (#[trigger] words[i]).len() == 32 by {
        assert(words[i] == word(b, i));
    }
    lemma_joined_words(words, 32);
    let head = joined(words);
    assert(head.len() == 672);
    lemma_le_bytes_len(ipp.len() as int, 8);
    lemma_le_bytes_len(ecp.len() as int, 8);
    assert forall|i: int| 0 <= i < 672 implies #[trigger] head[i] == b[i] by {
        let (x, j) = (i / 32, i % 32);
        assert(head.subrange(32 * x, 32 * x + 32) == words[x]);
        assert(head[i] == head.subrange(32 * x, 32 * x + 32)[j]);
        assert(word(b, x)[j] == b[i]);
    }
    assert(proof_bytes(p).take(672) =~= b.take(672));
    let tail = b.skip(688);
    assert forall|i: int| 0 <= i < ipp.len() && !is_filler(i) implies #[trigger] ipp[i] == tail[i] by {
        assert(bi[i] == tail[i]);
    }
    let last = b.skip(b.len() - ecp_len(b));
    assert(last =~= be);
    if ipp.len() + ecp.len() + 688 == b.len() && zero_filled(tail) && zero_filled(b.skip(688 + ipp.len() as int)) {
        assert(ipp_len(b) == ipp.len() && ecp_len(b) == ecp.len());
        assert forall|i: int| 0 <= i < bi.len() && is_filler(i) implies #[trigger] bi[i] == 0 by {
            assert(tail[i] == 0);
        }
        assert(b.skip(688 + ipp.len() as int) =~= be);
        lemma_le_bytes_of_value(b.subrange(672, 680));
        lemma_le_bytes_of_value(b.subrange(680, 688));
        assert(proof_bytes(p) =~= b);
    }
}

/// Whoever reads what was written for a proof gets every point, every scalar
/// and both folding arguments back, each in its place.
pub proof fn law_proof_restored(p: R1CSProof<RistrettoPoint>, q: R1CSProof<RistrettoPoint>)
    requires
        proof_regular(p),
        joined(ipa_parts(p.ipp_proof)).len() <= u64::MAX,
        joined(ecp_parts(p.ecp_batched)).len() <= u64::MAX,
        proof_is(q, proof_bytes(p)),
    ensures
        proof_parses(proof_bytes(p)),
        q.A_I.0@ == p.A_I.0@,
        q.A_O.0@ == p.A_O.0@,
        q.S.0@ == p.S.0@,
        q.T_1.0@ == p.T_1.0@,
        q.T_2.0@ == p.T_2.0@,
        q.T_3.0@ == p.T_3.0@,
        q.T_4.0@ == p.T_4.0@,
        q.T_5.0@ == p.T_5.0@,
        q.T_6.0@ == p.T_6.0@,
        q.S_prime.0@ == p.S_prime.0@,
        q.T_1_prime.0@ == p.T_1_prime.0@,
        q.S1_prime.0@ == p.S1_prime.0@,
        q.S2_prime.0@ == p.S2_prime.0@,
        q.t_x.value() == p.t_x.value(),
        q.t_x_blinding.value() == p.t_x_blinding.value(),
        q.e_blinding.value() == p.e_blinding.value(),
        q.tc_x.value() == p.tc_x.value(),
        q.tc_x_blinding.value() == p.tc_x_blinding.value(),
        q.ec_blinding.value() == p.ec_blinding.value(),
        q.t_cross.value() == p.t_cross.value(),
        q.r_blinding.value() == p.r_blinding.value(),
        q.ipp_proof.k == p.ipp_proof.k,
        q.ipp_proof.U_vecs@.len() == p.ipp_proof.U_vecs@.len(),
        forall|r: int|
            0 <= r < p.ipp_proof.U_vecs@.len() ==> (#[trigger] q.ipp_proof.U_vecs@[r])@.len()
                == p.ipp_proof.U_vecs@[r]@.len(),
        forall|r: int, x: int|
            0 <= r < p.ipp_proof.U_vecs@.len() && 0 <= x < p.ipp_proof.U_vecs@[r]@.len() ==> (
            #[trigger] q.ipp_proof.U_vecs@[r]@[x]).0@ == p.ipp_proof.U_vecs@[r]@[x].0@,
        q.ipp_proof.a_final@.len() == p.ipp_proof.a_final@.len(),
        q.ipp_proof.b_final@.len() == p.ipp_proof.b_final@.len(),
        forall|i: int|
            0 <= i < p.ipp_proof.a_final@.len() ==> (#[trigger] q.ipp_proof.a_final@[i]).value()
                == p.ipp_proof.a_final@[i].value(),
        forall|i: int|
            0 <= i < p.ipp_proof.b_final@.len() ==> (#[trigger] q.ipp_proof.b_final@[i]).value()
                == p.ipp_proof.b_final@[i].value(),
        q.ecp_batched.k == p.ecp_batched.k,
        q.ecp_batched.A_vecs@.len() == p.ecp_batched.A_vecs@.len(),
        forall|r: int|
            0 <= r < p.ecp_batched.A_vecs@.len() ==> (#[trigger] q.ecp_batched.A_vecs@[r])@.len()
                == p.ecp_batched.A_vecs@[r]@.len(),
        forall|r: int, x: int|
            0 <= r < p.ecp_batched.A_vecs@.len() && 0 <= x < p.ecp_batched.A_vecs@[r]@.len() ==> (
            #[trigger] q.ecp_batched.A_vecs@[r]@[x])@[0].0@ == p.ecp_batched.A_vecs@[r]@[x]@[0].0@
                && q.ecp_batched.A_vecs@[r]@[x]@[1].0@ == p.ecp_batched.A_vecs@[r]@[x]@[1].0@,
        q.ecp_batched.z@.len() == p.ecp_batched.z@.len(),
        forall|i: int|
            0 <= i < p.ecp_batched.z@.len() ==> (#[trigger] q.ecp_batched.z@[i]).value()
                == p.ecp_batched.z@[i].value(),
{
    law_proof_round_trip(p, q);
    let (s, t) = (proof_points(p), proof_points(q));
    assert(t[0] == s[0]);
    assert(t[1] == s[1]);
    assert(t[2] == s[2]);
    assert(t[3] == s[3]);
    assert(t[4] == s[4]);
    assert(t[5] == s[5]);
    assert(t[6] == s[6]);
    assert(t[7] == s[7]);
    assert(t[8] == s[8]);
    assert(t[9] == s[9]);
    assert(t[10] == s[10]);
    assert(t[11] == s[11]);
    assert(t[12] == s[12]);
    let (s, t) = (proof_scalars(p), proof_scalars(q));
    assert(t[0] == s[0]);
    assert(t[1] == s[1]);
    assert(t[2] == s[2]);
    assert(t[3] == s[3]);
    assert(t[4] == s[4]);
    assert(t[5] == s[5]);
    assert(t[6] == s[6]);
    assert(t[7] == s[7]);
    let (a, b) = (p.ipp_proof, q.ipp_proof);
    assert(a.points().len() == a.U_vecs@.len() && b.points().len() == b.U_vecs@.len());
    assert forall|r: int| 0 <= r < a.U_vecs@.len() implies (#[trigger] b.U_vecs@[r])@.len() == a.U_vecs@[r]@.len() by {
        assert(b.points()[r].len() == a.points()[r].len());
    }
    assert forall|r: int, x: int| 0 <= r < a.U_vecs@.len() && 0 <= x < a.U_vecs@[r]@.len() implies (
    #[trigger] b.U_vecs@[r]@[x]).0@ == a.U_vecs@[r]@[x].0@ by {
        assert(b.points()[r][x] == a.points()[r][x]);
        assert(b.U_vecs@[r]@.len() == a.U_vecs@[r]@.len());
    }
    assert(values(a.a_final@).len() == a.a_final@.len() && values(b.a_final@).len() == b.a_final@.len());
    assert(values(a.b_final@).len() == a.b_final@.len() && values(b.b_final@).len() == b.b_final@.len());
    assert forall|i: int| 0 <= i < a.a_final@.len() implies (#[trigger] b.a_final@[i]).value()
        == a.a_final@[i].value() by {
        assert(values(b.a_final@)[i] == values(a.a_final@)[i]);
    }
    assert forall|i: int| 0 <= i < a.b_final@.len() implies (#[trigger] b.b_final@[i]).value()
        == a.b_final@[i].value() by {
        assert(values(b.b_final@)[i] == values(a.b_final@)[i]);
    }
    let (c, d) = (p.ecp_batched, q.ecp_batched);
    assert(c.points(0).len() == c.A_vecs@.len() && d.points(0).len() == d.A_vecs@.len());
    assert forall|r: int| 0 <= r < c.A_vecs@.len() implies (#[trigger] d.A_vecs@[r])@.len() == c.A_vecs@[r]@.len() by {
        assert(d.points(0)[r].len() == c.points(0)[r].len());
    }
    assert forall|r: int, x: int| 0 <= r < c.A_vecs@.len() && 0 <= x < c.A_vecs@[r]@.len() implies (
    #[trigger] d.A_vecs@[r]@[x])@[0].0@ == c.A_vecs@[r]@[x]@[0].0@ && d.A_vecs@[r]@[x]@[1].0@
        == c.A_vecs@[r]@[x]@[1].0@ by {
        assert(d.points(0)[r][x] == c.points(0)[r][x]);
        assert(d.points(1)[r][x] == c.points(1)[r][x]);
        assert(d.A_vecs@[r]@.len() == c.A_vecs@[r]@.len());
    }
    assert(values(c.z@).len() == c.z@.len() && values(d.z@).len() == d.z@.len());
    assert forall|i: int| 0 <= i < c.z@.len() implies (#[trigger] d.z@[i]).value() == c.z@[i].value() by {
        assert(values(d.z@)[i] == values(c.z@)[i]);
    }
}

} // verus!
