//! A proof as bytes.

use vstd::prelude::*;
use vstd::slice::slice_subrange;
use crate::bytes::{
    le_bytes, le_value, lemma_le_bytes_len, lemma_le_value_of_bytes, lemma_pow_small, read_le, write_u64,
};
use crate::ecp::prove_ecp;
use crate::errors::ProofError;
use crate::group::{Field, Group};
use crate::ipa::prove_ipa;
use crate::r1cs::r1cs_proof::R1CSProof;
use crate::ristretto::point::{CompressedRistretto, RistrettoPoint};
use crate::ristretto::scalar::{Scalar, lemma_order, order};
use crate::ristretto::serialization::{
    ecp_is, ecp_parses, ecp_parts, ecp_regular, get_word, ipa_is, ipa_parses, ipa_parts, ipa_regular,
    law_ecp_round_trip, law_ipa_round_trip, same_ecp, same_ipa, word,
};
use crate::wire::{joined, lemma_joined_words, put};

verus! {

/// The points of a proof, in the order in which they are written.
pub open spec fn proof_points(p: R1CSProof<RistrettoPoint>) -> Seq<Seq<u8>> {
    seq![
        p.A_I.0@,
        p.A_O.0@,
        p.S.0@,
        p.T_1.0@,
        p.T_2.0@,
        p.T_3.0@,
        p.T_4.0@,
        p.T_5.0@,
        p.T_6.0@,
        p.S_prime.0@,
        p.T_1_prime.0@,
        p.S1_prime.0@,
        p.S2_prime.0@,
    ]
}

/// The scalars of a proof, in the order in which they are written.
pub open spec fn proof_scalars(p: R1CSProof<RistrettoPoint>) -> Seq<int> {
    seq![
        p.t_x.value(),
        p.t_x_blinding.value(),
        p.e_blinding.value(),
        p.tc_x.value(),
        p.tc_x_blinding.value(),
        p.ec_blinding.value(),
        p.t_cross.value(),
        p.r_blinding.value(),
    ]
}

/// The points and the scalars of a proof.
pub open spec fn proof_words(p: R1CSProof<RistrettoPoint>) -> Seq<Seq<u8>> {
    proof_points(p) + Seq::new(8, |i: int| le_bytes(proof_scalars(p)[i], 32))
}

/// A proof as bytes: the points, the scalars, the lengths of the two folding
/// arguments, and the arguments.
pub open spec fn proof_bytes(p: R1CSProof<RistrettoPoint>) -> Seq<u8> {
    let ipp = joined(ipa_parts(p.ipp_proof));
    let ecp = joined(ecp_parts(p.ecp_batched));
    joined(proof_words(p)) + le_bytes(ipp.len() as int, 8) + le_bytes(ecp.len() as int, 8) + ipp + ecp
}

/// The length of the inner product argument in some bytes.
pub open spec fn ipp_len(b: Seq<u8>) -> int {
    le_value(b.subrange(672, 680))
}

/// The length of the argument on the ciphertexts in some bytes.
pub open spec fn ecp_len(b: Seq<u8>) -> int {
    le_value(b.subrange(680, 688))
}

/// The inner product argument in some bytes.
pub open spec fn ipp_bytes(b: Seq<u8>) -> Seq<u8> {
    b.subrange(688, 688 + ipp_len(b))
}

/// The argument on the ciphertexts in some bytes.
pub open spec fn ecp_bytes(b: Seq<u8>) -> Seq<u8> {
    b.subrange(688 + ipp_len(b), 688 + ipp_len(b) + ecp_len(b))
}

/// Some bytes are a proof.
pub open spec fn proof_parses(b: Seq<u8>) -> bool {
    &&& b.len() >= 688
    &&& forall|i: int| 13 <= i < 21 ==> le_value(#[trigger] word(b, i)) < order()
    &&& b.len() == 688 + ipp_len(b) + ecp_len(b)
    &&& ipa_parses(ipp_bytes(b))
    &&& ecp_parses(ecp_bytes(b))
}

/// The proof that some bytes are.
pub open spec fn proof_is(p: R1CSProof<RistrettoPoint>, b: Seq<u8>) -> bool {
    &&& forall|i: int| 0 <= i < 13 ==> #[trigger] proof_points(p)[i] == word(b, i)
    &&& forall|i: int| 0 <= i < 8 ==> #[trigger] proof_scalars(p)[i] == le_value(word(b, 13 + i))
    &&& ipa_is(p.ipp_proof, ipp_bytes(b))
    &&& ecp_is(p.ecp_batched, ecp_bytes(b))
}

/// The folding arguments have the cross terms that their factors determine.
pub open spec fn proof_regular(p: R1CSProof<RistrettoPoint>) -> bool {
    ipa_regular(p.ipp_proof) && ecp_regular(p.ecp_batched)
}

/// Two proofs hold the same.
pub open spec fn same_proof(p: R1CSProof<RistrettoPoint>, q: R1CSProof<RistrettoPoint>) -> bool {
    &&& proof_points(p) == proof_points(q)
    &&& proof_scalars(p) == proof_scalars(q)
    &&& same_ipa(p.ipp_proof, q.ipp_proof)
    &&& same_ecp(p.ecp_batched, q.ecp_batched)
}

/// A proof with regular folding arguments has the shape that a verifier
/// expects.
pub proof fn lemma_regular_shaped(p: R1CSProof<RistrettoPoint>)
    requires
        proof_regular(p),
    ensures
        p.shaped(),
{
}

/// Reads a scalar.
fn get_scalar(slice: &[u8], i: usize) -> (r: Result<Scalar, ProofError>)
    requires
        32 * i + 32 <= slice@.len(),
    ensures
        r is Ok <==> le_value(word(slice@, i as int)) < order(),
        r matches Err(e) ==> e == ProofError::FormatError,
        r matches Ok(s) ==> s.value() == le_value(word(slice@, i as int)),
{
    match Scalar::from_canonical_bytes(get_word(slice, i)) {
        Some(s) => Ok(s),
        None => Err(ProofError::FormatError),
    }
}

/// Reads a point.
fn get_point(slice: &[u8], i: usize) -> (r: CompressedRistretto)
    requires
        32 * i + 32 <= slice@.len(),
    ensures
        r.0@ == word(slice@, i as int),
{
    CompressedRistretto(get_word(slice, i))
}

/// Reads the two folding arguments.
fn get_arguments(slice: &[u8]) -> (r: Result<(prove_ipa<RistrettoPoint>, prove_ecp<RistrettoPoint>), ProofError>)
    requires
        slice@.len() >= 688,
    ensures
        r is Ok <==> {
            &&& slice@.len() == 688 + ipp_len(slice@) + ecp_len(slice@)
            &&& ipa_parses(ipp_bytes(slice@))
            &&& ecp_parses(ecp_bytes(slice@))
        },
        r matches Err(e) ==> e == ProofError::FormatError,
        r matches Ok(t) ==> {
            &&& ipa_is(t.0, ipp_bytes(slice@))
            &&& ipa_regular(t.0)
            &&& ecp_is(t.1, ecp_bytes(slice@))
            &&& ecp_regular(t.1)
        },
{
    let n: usize = slice.len();
    let ipp_proof_len: u64 = read_le(slice, 672, 8);
    let ecp_batched_len: u64 = read_le(slice, 680, 8);
    let rest: u64 = (n - 688) as u64;
    if ipp_proof_len > rest || ecp_batched_len != rest - ipp_proof_len {
        return Err(ProofError::FormatError);
    }
    let middle: usize = 688 + ipp_proof_len as usize;
    let ipp_proof = match prove_ipa::<RistrettoPoint>::from_bytes(slice_subrange(slice, 688, middle)) {
        Ok(p) => p,
        Err(e) => {
            return Err(e);
        },
    };
    let ecp_batched = match prove_ecp::<RistrettoPoint>::from_bytes(slice_subrange(slice, middle, n)) {
        Ok(p) => p,
        Err(e) => {
            return Err(e);
        },
    };
    Ok((ipp_proof, ecp_batched))
}

impl R1CSProof<RistrettoPoint> {
    /// Serializes the proof into a byte array.
    pub fn to_bytes(&self) -> (r: Vec<u8>)
        ensures
            r@ == proof_bytes(*self),
    {
        let mut buf: Vec<u8> = Vec::new();
        let ghost w = proof_words(*self);
        assert(buf@ =~= joined(w.take(0)));
        put(&mut buf, self.A_I.as_bytes().as_slice(), Ghost(w.take(0)));
        assert(w.take(0).push(w[0]) =~= w.take(1));
        put(&mut buf, self.A_O.as_bytes().as_slice(), Ghost(w.take(1)));
        assert(w.take(1).push(w[1]) =~= w.take(2));
        put(&mut buf, self.S.as_bytes().as_slice(), Ghost(w.take(2)));
        assert(w.take(2).push(w[2]) =~= w.take(3));
        put(&mut buf, self.T_1.as_bytes().as_slice(), Ghost(w.take(3)));
        assert(w.take(3).push(w[3]) =~= w.take(4));
        put(&mut buf, self.T_2.as_bytes().as_slice(), Ghost(w.take(4)));
        assert(w.take(4).push(w[4]) =~= w.take(5));
        put(&mut buf, self.T_3.as_bytes().as_slice(), Ghost(w.take(5)));
        assert(w.take(5).push(w[5]) =~= w.take(6));
        put(&mut buf, self.T_4.as_bytes().as_slice(), Ghost(w.take(6)));
        assert(w.take(6).push(w[6]) =~= w.take(7));
        put(&mut buf, self.T_5.as_bytes().as_slice(), Ghost(w.take(7)));
        assert(w.take(7).push(w[7]) =~= w.take(8));
        put(&mut buf, self.T_6.as_bytes().as_slice(), Ghost(w.take(8)));
        assert(w.take(8).push(w[8]) =~= w.take(9));
        put(&mut buf, self.S_prime.as_bytes().as_slice(), Ghost(w.take(9)));
        assert(w.take(9).push(w[9]) =~= w.take(10));
        put(&mut buf, self.T_1_prime.as_bytes().as_slice(), Ghost(w.take(10)));
        assert(w.take(10).push(w[10]) =~= w.take(11));
        put(&mut buf, self.S1_prime.as_bytes().as_slice(), Ghost(w.take(11)));
        assert(w.take(11).push(w[11]) =~= w.take(12));
        put(&mut buf, self.S2_prime.as_bytes().as_slice(), Ghost(w.take(12)));
        assert(w.take(12).push(w[12]) =~= w.take(13));
        put(&mut buf, self.t_x.as_bytes().as_slice(), Ghost(w.take(13)));
        assert(w.take(13).push(w[13]) =~= w.take(14));
        put(&mut buf, self.t_x_blinding.as_bytes().as_slice(), Ghost(w.take(14)));
        assert(w.take(14).push(w[14]) =~= w.take(15));
        put(&mut buf, self.e_blinding.as_bytes().as_slice(), Ghost(w.take(15)));
        assert(w.take(15).push(w[15]) =~= w.take(16));
        put(&mut buf, self.tc_x.as_bytes().as_slice(), Ghost(w.take(16)));
        assert(w.take(16).push(w[16]) =~= w.take(17));
        put(&mut buf, self.tc_x_blinding.as_bytes().as_slice(), Ghost(w.take(17)));
        assert(w.take(17).push(w[17]) =~= w.take(18));
        put(&mut buf, self.ec_blinding.as_bytes().as_slice(), Ghost(w.take(18)));
        assert(w.take(18).push(w[18]) =~= w.take(19));
        put(&mut buf, self.t_cross.as_bytes().as_slice(), Ghost(w.take(19)));
        assert(w.take(19).push(w[19]) =~= w.take(20));
        put(&mut buf, self.r_blinding.as_bytes().as_slice(), Ghost(w.take(20)));
        assert(w.take(20).push(w[20]) =~= w);

        let ipp_proof_bytes = self.ipp_proof.to_bytes();
        let ecp_batched_bytes = self.ecp_batched.to_bytes();
        let ipp_proof_len = write_u64(ipp_proof_bytes.len() as u64);
        let ecp_batched_len = write_u64(ecp_batched_bytes.len() as u64);
        buf.extend_from_slice(ipp_proof_len.as_slice());
        buf.extend_from_slice(ecp_batched_len.as_slice());
        buf.extend_from_slice(ipp_proof_bytes.as_slice());
        buf.extend_from_slice(ecp_batched_bytes.as_slice());
        assert(buf@ =~= proof_bytes(*self));
        buf
    }

    /// Deserializes the proof from a byte slice.
    pub fn from_bytes(slice: &[u8]) -> (r: Result<R1CSProof<RistrettoPoint>, ProofError>)
        ensures
            r is Ok <==> proof_parses(slice@),
            r matches Err(e) ==> e == ProofError::FormatError,
            r matches Ok(p) ==> proof_is(p, slice@) && proof_regular(p) && p.shaped(),
    {
        if slice.len() < 688 {
            return Err(ProofError::FormatError);
        }
        let A_I = get_point(slice, 0);
        let A_O = get_point(slice, 1);
        let S = get_point(slice, 2);
        let T_1 = get_point(slice, 3);
        let T_2 = get_point(slice, 4);
        let T_3 = get_point(slice, 5);
        let T_4 = get_point(slice, 6);
        let T_5 = get_point(slice, 7);
        let T_6 = get_point(slice, 8);
        let S_prime = get_point(slice, 9);
        let T_1_prime = get_point(slice, 10);
        let S1_prime = get_point(slice, 11);
        let S2_prime = get_point(slice, 12);
        let t_x = get_scalar(slice, 13)?;
        let t_x_blinding = get_scalar(slice, 14)?;
        let e_blinding = get_scalar(slice, 15)?;
        let tc_x = get_scalar(slice, 16)?;
        let tc_x_blinding = get_scalar(slice, 17)?;
        let ec_blinding = get_scalar(slice, 18)?;
        let t_cross = get_scalar(slice, 19)?;
        let r_blinding = get_scalar(slice, 20)?;
        let (ipp_proof, ecp_batched) = get_arguments(slice)?;
        let p = R1CSProof {
            A_I,
            A_O,
            S,
            T_1,
            T_2,
            T_3,
            T_4,
            T_5,
            T_6,
            t_x,
            t_x_blinding,
            e_blinding,
            ipp_proof,
            S_prime,
            T_1_prime,
            S1_prime,
            S2_prime,
            tc_x,
            tc_x_blinding,
            ec_blinding,
            t_cross,
            r_blinding,
            ecp_batched,
        };
        proof {
            lemma_regular_shaped(p);
        }
        Ok(p)
    }
}

/// Whoever reads what was written for a proof gets the proof back.
pub proof fn law_proof_round_trip(p: R1CSProof<RistrettoPoint>, q: R1CSProof<RistrettoPoint>)
    requires
        proof_regular(p),
        joined(ipa_parts(p.ipp_proof)).len() <= u64::MAX,
        joined(ecp_parts(p.ecp_batched)).len() <= u64::MAX,
    ensures
        proof_parses(proof_bytes(p)),
        proof_is(p, proof_bytes(p)),
        proof_is(q, proof_bytes(p)) ==> same_proof(q, p),
{
    let b = proof_bytes(p);
    let words = proof_words(p);
    let ipp = joined(ipa_parts(p.ipp_proof));
    let ecp = joined(ecp_parts(p.ecp_batched));
    assert forall|i: int| 0 <= i < words.len() implies (#[trigger] words[i]).len() == 32 by {
        if i >= 13 {
            lemma_le_bytes_len(proof_scalars(p)[i - 13], 32);
        }
    }
    lemma_joined_words(words, 32);
    lemma_le_bytes_len(ipp.len() as int, 8);
    lemma_le_bytes_len(ecp.len() as int, 8);
    lemma_pow_small();
    lemma_le_value_of_bytes(ipp.len() as int, 8);
    lemma_le_value_of_bytes(ecp.len() as int, 8);
    assert(b.subrange(672, 680) =~= le_bytes(ipp.len() as int, 8));
    assert(b.subrange(680, 688) =~= le_bytes(ecp.len() as int, 8));
    assert(ipp_bytes(b) =~= ipp);
    assert(ecp_bytes(b) =~= ecp);
    assert forall|i: int| 0 <= i < 21 implies #[trigger] word(b, i) == words[i] by {
        assert(word(b, i) =~= joined(words).subrange(32 * i, 32 * i + 32));
    }
    assert forall|i: int| 0 <= i < 8 implies #[trigger] proof_scalars(p)[i] == le_value(word(b, 13 + i))
        && proof_scalars(p)[i] < order() by {
        assert(word(b, 13 + i) == words[13 + i]);
        p.t_x.value_range();
        p.t_x_blinding.value_range();
        p.e_blinding.value_range();
        p.tc_x.value_range();
        p.tc_x_blinding.value_range();
        p.ec_blinding.value_range();
        p.t_cross.value_range();
        p.r_blinding.value_range();
        lemma_order();
        lemma_le_value_of_bytes(proof_scalars(p)[i], 32);
    }
    assert forall|i: int| 13 <= i < 21 implies le_value(#[trigger] word(b, i)) < order() by {
        assert(proof_scalars(p)[i - 13] == le_value(word(b, 13 + (i - 13))));
    }
    law_ipa_round_trip(p.ipp_proof, q.ipp_proof);
    law_ecp_round_trip(p.ecp_batched, q.ecp_batched);
    if proof_is(q, b) {
        assert(proof_points(q) =~= proof_points(p)) by {
            assert forall|i: int| 0 <= i < 13 implies proof_points(q)[i] == proof_points(p)[i] by {
                assert(word(b, i) == words[i]);
            }
        }
        assert(proof_scalars(q) =~= proof_scalars(p));
    }
}

} // verus!
