//! What was read is written as it was.

use vstd::prelude::*;
use crate::bytes::{le_bytes, le_value, lemma_le_bytes_len, lemma_le_bytes_of_value, lemma_le_value_range};
use crate::ecp::prove_ecp;
use crate::group::{Field, values};
use crate::ipa::prove_ipa;
use crate::p256::curve::Projective;
use crate::p256::field::{Fr, is_scalar};
use crate::p256::proof_bytes::{
    ecp_len, ecp_part, ipp_len, ipp_part, items_end, items_of, law_proof_round_trip, proof_bytes, proof_is,
    proof_items, proof_parses, proof_points, proof_regular, proof_scalars,
};
use crate::p256::serialization::{
    body_items, ecp_bytes, ecp_count, ecp_is, ecp_items, ecp_parses, header_bytes, ipa_bytes, ipa_count,
    ipa_is, ipa_items, ipa_parses, item_at, items_at, number, pair_items, pair_row_items, point_items,
    prefixed, prefixed_all, row_items, scalar_items, terms_per_round,
};
use crate::r1cs::r1cs_proof::R1CSProof;
use crate::wire::{joined, lemma_joined_push, lemma_row_entries_len, lemma_row_entry};

verus! {

/// Items that were read, after their lengths, are the bytes they were read
/// from.
pub proof fn lemma_items_written(b: Seq<u8>, pos: int, n: nat, width: nat)
    requires
        0 <= pos <= b.len(),
        items_at(b, pos, n, width) is Some,
    ensures
        ({
            let (items, end) = items_at(b, pos, n, width)->0;
            &&& items.len() == n
            &&& pos <= end <= b.len()
            &&& joined(prefixed_all(items, width)) == b.subrange(pos, end)
        }),
    decreases n,
{
    let (items, end) = items_at(b, pos, n, width)->0;
    if n == 0 {
        assert(prefixed_all(items, width) =~= Seq::<Seq<u8>>::empty());
        assert(b.subrange(pos, end) =~= Seq::<u8>::empty());
    } else {
        lemma_items_written(b, pos, (n - 1) as nat, width);
        let (r, p) = items_at(b, pos, (n - 1) as nat, width)->0;
        let (item, next) = item_at(b, p, width)->0;
        let size = b.subrange(p, p + width);
        lemma_le_value_range(size);
        lemma_le_bytes_of_value(size);
        assert(item.len() == le_value(size));
        assert(prefixed_all(items, width) =~= prefixed_all(r, width).push(prefixed(item, width)));
        lemma_joined_push(prefixed_all(r, width), prefixed(item, width));
        assert(prefixed(item, width) =~= b.subrange(p, next));
        assert(b.subrange(pos, p) + b.subrange(p, next) =~= b.subrange(pos, end));
    }
}

/// `s` is `t`, or what is read of `t` as a scalar.
spec fn shortened(s: Seq<u8>, t: Seq<u8>) -> bool {
    s == t || (t.len() >= 32 && s == t.take(32))
}

/// Shortened items take no more bytes, and as many only if they are the same.
proof fn lemma_shortened(s: Seq<Seq<u8>>, t: Seq<Seq<u8>>, width: nat)
    requires
        s.len() == t.len(),
        forall|i: int| 0 <= i < s.len() ==> shortened(#[trigger] s[i], t[i]),
    ensures
        joined(prefixed_all(s, width)).len() <= joined(prefixed_all(t, width)).len(),
        joined(prefixed_all(s, width)).len() == joined(prefixed_all(t, width)).len() ==> s == t,
    decreases s.len(),
{
    if s.len() == 0 {
        assert(s =~= t);
    } else {
        let (u, v) = (s.drop_last(), t.drop_last());
        assert forall|i: int| 0 <= i < u.len() implies shortened(#[trigger] u[i], v[i]) by {
            assert(shortened(s[i], t[i]));
        }
        lemma_shortened(u, v, width);
        let n = s.len() - 1;
        assert(shortened(s[n], t[n]));
        lemma_le_bytes_len(s[n].len() as int, width);
        lemma_le_bytes_len(t[n].len() as int, width);
        assert(prefixed_all(s, width) =~= prefixed_all(u, width).push(prefixed(s[n], width)));
        assert(prefixed_all(t, width) =~= prefixed_all(v, width).push(prefixed(t[n], width)));
        lemma_joined_push(prefixed_all(u, width), prefixed(s[n], width));
        lemma_joined_push(prefixed_all(v, width), prefixed(t[n], width));
        if joined(prefixed_all(s, width)).len() == joined(prefixed_all(t, width)).len() {
            if s[n] != t[n] {
                assert(t[n].take(32).len() == 32);
                assert(t[n].len() == 32);
                assert(t[n].take(32) =~= t[n]);
            }
            assert(s =~= u.push(s[n]));
            assert(t =~= v.push(t[n]));
        }
    }
}

/// A scalar that was read is written as it was.
proof fn lemma_scalar_shortened(s: Fr, item: Seq<u8>)
    requires
        is_scalar(item),
        s.value() == le_value(item.take(32)),
    ensures
        shortened(le_bytes(s.value(), 32), item),
{
    lemma_le_bytes_of_value(item.take(32));
}

/// The three numbers are written as they were.
proof fn lemma_header_written(b: Seq<u8>)
    requires
        b.len() >= 24,
    ensures
        header_bytes(number(b, 0), number(b, 1), number(b, 2)) == b.take(24),
{
    lemma_le_bytes_of_value(b.subrange(0, 8));
    lemma_le_bytes_of_value(b.subrange(8, 16));
    lemma_le_bytes_of_value(b.subrange(16, 24));
    assert(b.subrange(0, 8) + b.subrange(8, 16) + b.subrange(16, 24) =~= b.take(24));
}

/// Whoever reads an inner product argument and writes it gets no more bytes
/// than were there, and if as many, the same.
pub proof fn law_ipa_read(p: prove_ipa<Projective>, b: Seq<u8>)
    requires
        ipa_parses(b),
        ipa_is(p, b),
    ensures
        ipa_bytes(p).take(24) == b.take(24),
        ipa_bytes(p).len() <= b.len(),
        ipa_bytes(p).len() == b.len() ==> ipa_bytes(p) == b,
{
    let (k, d, m) = (number(b, 0), number(b, 1), number(b, 2));
    let w = terms_per_round(k);
    let n = d * w;
    lemma_le_value_range(b.subrange(8, 16));
    lemma_le_value_range(b.subrange(16, 24));
    assert(0 <= n) by (nonlinear_arith)
        requires
            n == d * w,
            d >= 0,
            w >= 0,
    ;
    let t = body_items(b, ipa_count(b));
    let s = ipa_items(p);
    lemma_items_written(b, 24, ipa_count(b) as nat, 4);
    let rows = Seq::new(p.U_vecs@.len(), |r: int| row_items(p.U_vecs@[r]@));
    assert forall|r: int| 0 <= r < rows.len() implies (#[trigger] rows[r]).len() == w by {
        assert(p.U_vecs@[r]@.len() == w);
    }
    lemma_row_entries_len(rows, w);
    assert(s.len() == t.len());
    assert forall|i: int| 0 <= i < s.len() implies shortened(#[trigger] s[i], t[i]) by {
        if i < n {
            assert(w > 0) by (nonlinear_arith)
                requires
                    0 <= i < d * w,
                    w >= 0,
            ;
            let (r, x) = (i / w, i % w);
            vstd::arithmetic::div_mod::lemma_fundamental_div_mod(i, w);
            vstd::arithmetic::div_mod::lemma_mod_bound(i, w);
            assert(w * r == r * w) by (nonlinear_arith);
            assert(0 <= r < d) by (nonlinear_arith)
                requires
                    0 <= i < d * w,
                    i == r * w + x,
                    0 <= x < w,
            ;
            lemma_row_entry(rows, w, r, x);
            assert(p.U_vecs@[r]@[x]@ == t[r * w + x]);
            assert(s[i] == point_items(p.U_vecs@)[i]);
            assert(rows[r][x] == p.U_vecs@[r]@[x]@);
        } else if i < n + m {
            let j = i - n;
            assert(s[i] == scalar_items(p.a_final@)[j]);
            assert(is_scalar(t[i]));
            assert(p.a_final@[j].value() == le_value(t[n + j].take(32)));
            lemma_scalar_shortened(p.a_final@[j], t[i]);
        } else {
            let j = i - n - m;
            assert(s[i] == scalar_items(p.b_final@)[j]);
            assert(is_scalar(t[i]));
            assert(p.b_final@[j].value() == le_value(t[n + m + j].take(32)));
            lemma_scalar_shortened(p.b_final@[j], t[i]);
        }
    }
    lemma_shortened(s, t, 4);
    lemma_header_written(b);
    assert(ipa_bytes(p).take(24) =~= b.take(24));
    if ipa_bytes(p).len() == b.len() {
        assert(ipa_bytes(p) =~= b);
    }
}

/// Whoever reads an argument for two sets of bases and writes it gets no more
/// bytes than were there, and if as many, the same.
pub proof fn law_ecp_read(p: prove_ecp<Projective>, b: Seq<u8>)
    requires
        ecp_parses(b),
        ecp_is(p, b),
    ensures
        ecp_bytes(p).take(24) == b.take(24),
        ecp_bytes(p).len() <= b.len(),
        ecp_bytes(p).len() == b.len() ==> ecp_bytes(p) == b,
{
    let (k, d, m) = (number(b, 0), number(b, 1), number(b, 2));
    let w = terms_per_round(k);
    lemma_le_value_range(b.subrange(8, 16));
    lemma_le_value_range(b.subrange(16, 24));
    assert(0 <= d * w) by (nonlinear_arith)
        requires
            d >= 0,
            w >= 0,
    ;
    let v = 2 * w;
    let n = 2 * (d * w);
    assert(d * v == n) by (nonlinear_arith)
        requires
            v == 2 * w,
            n == 2 * (d * w),
    ;
    let t = body_items(b, ecp_count(b));
    let s = ecp_items(p);
    lemma_items_written(b, 24, ecp_count(b) as nat, 4);
    let rows = Seq::new(p.A_vecs@.len(), |r: int| pair_row_items(p.A_vecs@[r]@));
    assert forall|r: int| 0 <= r < rows.len() implies (#[trigger] rows[r]).len() == v by {
        assert(p.A_vecs@[r]@.len() == w);
    }
    lemma_row_entries_len(rows, v);
    assert(s.len() == t.len());
    assert forall|i: int| 0 <= i < s.len() implies shortened(#[trigger] s[i], t[i]) by {
        if i < n {
            assert(v > 0) by (nonlinear_arith)
                requires
                    0 <= i < d * v,
                    v >= 0,
            ;
            let (r, y) = (i / v, i % v);
            vstd::arithmetic::div_mod::lemma_fundamental_div_mod(i, v);
            vstd::arithmetic::div_mod::lemma_mod_bound(i, v);
            assert(v * r == r * v) by (nonlinear_arith);
            assert(0 <= r < d) by (nonlinear_arith)
                requires
                    0 <= i < d * v,
                    i == r * v + y,
                    0 <= y < v,
            ;
            let x = y / 2;
            assert(r * v == 2 * (r * w)) by (nonlinear_arith)
                requires
                    v == 2 * w,
            ;
            lemma_row_entry(rows, v, r, y);
            assert(p.A_vecs@[r]@[x]@[0]@ == t[2 * (r * w + x)]);
            assert(p.A_vecs@[r]@[x]@[1]@ == t[2 * (r * w + x) + 1]);
            assert(s[i] == pair_items(p.A_vecs@)[i]);
            assert(rows[r][y] == p.A_vecs@[r]@[y / 2]@[y % 2]@);
        } else {
            let j = i - n;
            assert(s[i] == scalar_items(p.z@)[j]);
            assert(is_scalar(t[i]));
            assert(p.z@[j].value() == le_value(t[n + j].take(32)));
            lemma_scalar_shortened(p.z@[j], t[i]);
        }
    }
    lemma_shortened(s, t, 4);
    lemma_header_written(b);
    assert(ecp_bytes(p).take(24) =~= b.take(24));
    if ecp_bytes(p).len() == b.len() {
        assert(ecp_bytes(p) =~= b);
    }
}

/// Whoever reads a proof and writes it gets no more bytes than were there, and
/// if as many, the same.
pub proof fn law_proof_read(p: R1CSProof<Projective>, b: Seq<u8>)
    requires
        proof_parses(b),
        proof_is(p, b),
    ensures
        proof_bytes(p).len() <= b.len(),
        proof_bytes(p).len() == b.len() ==> proof_bytes(p) == b,
{
    let s = proof_items(p);
    let t = items_of(b);
    let end = items_end(b);
    lemma_items_written(b, 0, 21, 8);
    assert(s.len() == t.len());
    assert forall|i: int| 0 <= i < s.len() implies shortened(#[trigger] s[i], t[i]) by {
        if i < 13 {
            assert(proof_points(p)[i] == t[i]);
        } else {
            let j = i - 13;
            assert(is_scalar(t[i]));
            assert(proof_scalars(p)[j].value() == le_value(t[13 + j].take(32)));
            lemma_scalar_shortened(proof_scalars(p)[j], t[i]);
        }
    }
    lemma_shortened(s, t, 8);
    let (ipp, ecp) = (ipa_bytes(p.ipp_proof), ecp_bytes(p.ecp_batched));
    lemma_le_value_range(b.subrange(end, end + 8));
    lemma_le_value_range(b.subrange(end + 8, end + 16));
    law_ipa_read(p.ipp_proof, ipp_part(b));
    law_ecp_read(p.ecp_batched, ecp_part(b));
    lemma_le_bytes_len(ipp.len() as int, 8);
    lemma_le_bytes_len(ecp.len() as int, 8);
    if proof_bytes(p).len() == b.len() {
        assert(ipp.len() == ipp_len(b) && ecp.len() == ecp_len(b));
        lemma_le_bytes_of_value(b.subrange(end, end + 8));
        lemma_le_bytes_of_value(b.subrange(end + 8, end + 16));
        assert(proof_bytes(p) =~= b);
    }
}

/// Whoever reads what was written for a proof gets every point, every scalar
/// and both folding arguments back, each in its place.
pub proof fn law_proof_restored(p: R1CSProof<Projective>, q: R1CSProof<Projective>)
    requires
        proof_regular(p),
        ipa_bytes(p.ipp_proof).len() <= u64::MAX,
        ecp_bytes(p.ecp_batched).len() <= u64::MAX,
        forall|i: int| 0 <= i < 13 ==> (#[trigger] proof_points(p)[i]).len() <= u64::MAX,
        proof_is(q, proof_bytes(p)),
    ensures
        proof_parses(proof_bytes(p)),
        q.A_I@ == p.A_I@,
        q.A_O@ == p.A_O@,
        q.S@ == p.S@,
        q.T_1@ == p.T_1@,
        q.T_2@ == p.T_2@,
        q.T_3@ == p.T_3@,
        q.T_4@ == p.T_4@,
        q.T_5@ == p.T_5@,
        q.T_6@ == p.T_6@,
        q.S_prime@ == p.S_prime@,
        q.T_1_prime@ == p.T_1_prime@,
        q.S1_prime@ == p.S1_prime@,
        q.S2_prime@ == p.S2_prime@,
        q.t_x.value() == p.t_x.value(),
        q.t_x_blinding.value() == p.t_x_blinding.value(),
        q.e_blinding.value() == p.e_blinding.value(),
        q.tc_x.value() == p.tc_x.value(),
        q.tc_x_blinding.value() == p.tc_x_blinding.value(),
        q.ec_blinding.value() == p.ec_blinding.value(),
        q.t_cross.value() == p.t_cross.value(),
        q.r_blinding.value() == p.r_blinding.value(),
        q.ipp_proof.k == p.ipp_proof.k,
        q.ipp_proof.U_vecs@.len() == p.ipp_proof.U_vecs@.len(),
        forall|r: int|
            0 <= r < p.ipp_proof.U_vecs@.len() ==> (#[trigger] q.ipp_proof.U_vecs@[r])@.len()
                == p.ipp_proof.U_vecs@[r]@.len(),
        forall|r: int, x: int|
            0 <= r < p.ipp_proof.U_vecs@.len() && 0 <= x < p.ipp_proof.U_vecs@[r]@.len() ==> (
            #[trigger] q.ipp_proof.U_vecs@[r]@[x])@ == p.ipp_proof.U_vecs@[r]@[x]@,
        q.ipp_proof.a_final@.len() == p.ipp_proof.a_final@.len(),
        q.ipp_proof.b_final@.len() == p.ipp_proof.b_final@.len(),
        forall|i: int|
            0 <= i < p.ipp_proof.a_final@.len() ==> (#[trigger] q.ipp_proof.a_final@[i]).value()
                == p.ipp_proof.a_final@[i].value(),
        forall|i: int|
            0 <= i < p.ipp_proof.b_final@.len() ==> (#[trigger] q.ipp_proof.b_final@[i]).value()
                == p.ipp_proof.b_final@[i].value(),
        q.ecp_batched.k == p.ecp_batched.k,
        q.ecp_batched.A_vecs@.len() == p.ecp_batched.A_vecs@.len(),
        forall|r: int|
            0 <= r < p.ecp_batched.A_vecs@.len() ==> (#[trigger] q.ecp_batched.A_vecs@[r])@.len()
                == p.ecp_batched.A_vecs@[r]@.len(),
        forall|r: int, x: int|
            0 <= r < p.ecp_batched.A_vecs@.len() && 0 <= x < p.ecp_batched.A_vecs@[r]@.len() ==> (
            #[trigger] q.ecp_batched.A_vecs@[r]@[x])@[0]@ == p.ecp_batched.A_vecs@[r]@[x]@[0]@
                && q.ecp_batched.A_vecs@[r]@[x]@[1]@ == p.ecp_batched.A_vecs@[r]@[x]@[1]@,
        q.ecp_batched.z@.len() == p.ecp_batched.z@.len(),
        forall|i: int|
            0 <= i < p.ecp_batched.z@.len() ==> (#[trigger] q.ecp_batched.z@[i]).value()
                == p.ecp_batched.z@[i].value(),
{
    law_proof_round_trip(p, q);
    let (s, t) = (proof_points(p), proof_points(q));
    assert(t[0] == s[0]);
    assert(t[1] == s[1]);
    assert(t[2] == s[2]);
    assert(t[3] == s[3]);
    assert(t[4] == s[4]);
    assert(t[5] == s[5]);
    assert(t[6] == s[6]);
    assert(t[7] == s[7]);
    assert(t[8] == s[8]);
    assert(t[9] == s[9]);
    assert(t[10] == s[10]);
    assert(t[11] == s[11]);
    assert(t[12] == s[12]);
    let (s, t) = (proof_scalars(p), proof_scalars(q));
    assert(t[0].value() == s[0].value());
    assert(t[1].value() == s[1].value());
    assert(t[2].value() == s[2].value());
    assert(t[3].value() == s[3].value());
    assert(t[4].value() == s[4].value());
    assert(t[5].value() == s[5].value());
    assert(t[6].value() == s[6].value());
    assert(t[7].value() == s[7].value());
    let (a, b) = (p.ipp_proof, q.ipp_proof);
    assert(a.points().len() == a.U_vecs@.len() && b.points().len() == b.U_vecs@.len());
    assert forall|r: int| 0 <= r < a.U_vecs@.len() implies (#[trigger] b.U_vecs@[r])@.len() == a.U_vecs@[r]@.len() by {
        assert(b.points()[r].len() == a.points()[r].len());
    }
    assert forall|r: int, x: int| 0 <= r < a.U_vecs@.len() && 0 <= x < a.U_vecs@[r]@.len() implies (
    #[trigger] b.U_vecs@[r]@[x])@ == a.U_vecs@[r]@[x]@ by {
        assert(b.points()[r][x] == a.points()[r][x]);
        assert(b.U_vecs@[r]@.len() == a.U_vecs@[r]@.len());
    }
    assert(values(a.a_final@).len() == a.a_final@.len() && values(b.a_final@).len() == b.a_final@.len());
    assert(values(a.b_final@).len() == a.b_final@.len() && values(b.b_final@).len() == b.b_final@.len());
    assert forall|i: int| 0 <= i < a.a_final@.len() implies (#[trigger] b.a_final@[i]).value()
        == a.a_final@[i].value() by {
        assert(values(b.a_final@)[i] == values(a.a_final@)[i]);
    }
    assert forall|i: int| 0 <= i < a.b_final@.len() implies (#[trigger] b.b_final@[i]).value()
        == a.b_final@[i].value() by {
        assert(values(b.b_final@)[i] == values(a.b_final@)[i]);
    }
    let (c, d) = (p.ecp_batched, q.ecp_batched);
    assert(c.points(0).len() == c.A_vecs@.len() && d.points(0).len() == d.A_vecs@.len());
    assert forall|r: int| 0 <= r < c.A_vecs@.len() implies (#[trigger] d.A_vecs@[r])@.len() == c.A_vecs@[r]@.len() by {
        assert(d.points(0)[r].len() == c.points(0)[r].len());
    }
    assert forall|r: int, x: int| 0 <= r < c.A_vecs@.len() && 0 <= x < c.A_vecs@[r]@.len() implies (
    #[trigger] d.A_vecs@[r]@[x])@[0]@ == c.A_vecs@[r]@[x]@[0]@ && d.A_vecs@[r]@[x]@[1]@
        == c.A_vecs@[r]@[x]@[1]@ by {
        assert(d.points(0)[r][x] == c.points(0)[r][x]);
        assert(d.points(1)[r][x] == c.points(1)[r][x]);
        assert(d.A_vecs@[r]@.len() == c.A_vecs@[r]@.len());
    }
    assert(values(c.z@).len() == c.z@.len() && values(d.z@).len() == d.z@.len());
    assert forall|i: int| 0 <= i < c.z@.len() implies (#[trigger] d.z@[i]).value() == c.z@[i].value() by {
        assert(values(d.z@)[i] == values(c.z@)[i]);
    }
}

} // verus!
