//! A proof as bytes.

use vstd::prelude::*;
use vstd::slice::slice_subrange;
use crate::bytes::{
    le_bytes, le_value, lemma_le_bytes_len, lemma_le_value_of_bytes, lemma_pow_small, read_le, write_u64,
};
use crate::ecp::prove_ecp;
use crate::errors::ProofError;
use crate::group::{Field, Group};
use crate::ipa::prove_ipa;
use crate::p256::curve::Projective;
use crate::p256::field::{Fr, is_scalar};
use crate::p256::serialization::{
    all_short, ecp_bytes, ecp_is, ecp_parses, ecp_regular, ecp_short, get_item, ipa_bytes, ipa_is,
    ipa_parses, ipa_regular, ipa_short, items_at, law_ecp_round_trip, law_ipa_round_trip,
    lemma_items_prefix, lemma_items_read, lemma_scalar_item, prefixed, prefixed_all, same_ecp, same_ipa,
};
use crate::r1cs::r1cs_proof::R1CSProof;
use crate::wire::{joined, lemma_joined_push};

verus! {

/// The points of a proof, in the order in which they are written.
pub open spec fn proof_points(p: R1CSProof<Projective>) -> Seq<Seq<u8>> {
    seq![
        p.A_I@,
        p.A_O@,
        p.S@,
        p.T_1@,
        p.T_2@,
        p.T_3@,
        p.T_4@,
        p.T_5@,
        p.T_6@,
        p.S_prime@,
        p.T_1_prime@,
        p.S1_prime@,
        p.S2_prime@,
    ]
}

/// The scalars of a proof, in the order in which they are written.
pub open spec fn proof_scalars(p: R1CSProof<Projective>) -> Seq<Fr> {
    seq![
        p.t_x,
        p.t_x_blinding,
        p.e_blinding,
        p.tc_x,
        p.tc_x_blinding,
        p.ec_blinding,
        p.t_cross,
        p.r_blinding,
    ]
}

/// The points and the scalars of a proof.
pub open spec fn proof_items(p: R1CSProof<Projective>) -> Seq<Seq<u8>> {
    proof_points(p) + Seq::new(8, |i: int| le_bytes(proof_scalars(p)[i].value(), 32))
}

/// A proof as bytes: the points and the scalars, each after its length, the
/// lengths of the two folding arguments, and the arguments.
pub open spec fn proof_bytes(p: R1CSProof<Projective>) -> Seq<u8> {
    let ipp = ipa_bytes(p.ipp_proof);
    let ecp = ecp_bytes(p.ecp_batched);
    joined(prefixed_all(proof_items(p), 8)) + le_bytes(ipp.len() as int, 8) + le_bytes(ecp.len() as int, 8)
        + ipp + ecp
}

/// The points and the scalars in some bytes.
pub open spec fn items_of(b: Seq<u8>) -> Seq<Seq<u8>> {
    (items_at(b, 0, 21, 8)->0).0
}

/// The position after the points and the scalars.
pub open spec fn items_end(b: Seq<u8>) -> int {
    (items_at(b, 0, 21, 8)->0).1
}

/// The length of the inner product argument in some bytes.
pub open spec fn ipp_len(b: Seq<u8>) -> int {
    le_value(b.subrange(items_end(b), items_end(b) + 8))
}

/// The length of the argument on the ciphertexts in some bytes.
pub open spec fn ecp_len(b: Seq<u8>) -> int {
    le_value(b.subrange(items_end(b) + 8, items_end(b) + 16))
}

/// The inner product argument in some bytes.
pub open spec fn ipp_part(b: Seq<u8>) -> Seq<u8> {
    b.subrange(items_end(b) + 16, items_end(b) + 16 + ipp_len(b))
}

/// The argument on the ciphertexts in some bytes.
pub open spec fn ecp_part(b: Seq<u8>) -> Seq<u8> {
    b.subrange(items_end(b) + 16 + ipp_len(b), items_end(b) + 16 + ipp_len(b) + ecp_len(b))
}

/// Some bytes hold the two folding arguments of a proof.
pub open spec fn arguments_parse(b: Seq<u8>) -> bool {
    &&& items_end(b) + 16 <= b.len()
    &&& items_end(b) + 16 + ipp_len(b) + ecp_len(b) <= b.len()
    &&& ipa_parses(ipp_part(b))
    &&& ecp_parses(ecp_part(b))
}

/// Some bytes are a proof.
pub open spec fn proof_parses(b: Seq<u8>) -> bool {
    &&& items_at(b, 0, 21, 8) is Some
    &&& forall|i: int| 13 <= i < 21 ==> #[trigger] is_scalar(items_of(b)[i])
    &&& arguments_parse(b)
}

/// The proof that some bytes are. Bytes that follow it do not count.
pub open spec fn proof_is(p: R1CSProof<Projective>, b: Seq<u8>) -> bool {
    &&& forall|i: int| 0 <= i < 13 ==> #[trigger] proof_points(p)[i] == items_of(b)[i]
    &&& forall|i: int|
        0 <= i < 8 ==> (#[trigger] proof_scalars(p)[i]).value() == le_value(items_of(b)[13 + i].take(32))
    &&& ipa_is(p.ipp_proof, ipp_part(b))
    &&& ecp_is(p.ecp_batched, ecp_part(b))
}

/// The folding arguments have the cross terms that their factors determine.
pub open spec fn proof_regular(p: R1CSProof<Projective>) -> bool {
    ipa_regular(p.ipp_proof) && ecp_regular(p.ecp_batched)
}

/// Two proofs hold the same.
pub open spec fn same_proof(p: R1CSProof<Projective>, q: R1CSProof<Projective>) -> bool {
    &&& proof_points(p) == proof_points(q)
    &&& forall|i: int| 0 <= i < 8 ==> (#[trigger] proof_scalars(p)[i]).value() == proof_scalars(q)[i].value()
    &&& same_ipa(p.ipp_proof, q.ipp_proof)
    &&& same_ecp(p.ecp_batched, q.ecp_batched)
}

/// A proof with regular folding arguments and short encodings has the shape
/// that a verifier expects.
pub proof fn lemma_regular_shaped(p: R1CSProof<Projective>)
    requires
        proof_regular(p),
        all_short(proof_points(p)),
    ensures
        p.shaped(),
{
    let s = proof_points(p);
    assert(s[0].len() <= u32::MAX && s[1].len() <= u32::MAX && s[2].len() <= u32::MAX);
    assert(s[3].len() <= u32::MAX && s[4].len() <= u32::MAX && s[5].len() <= u32::MAX);
    assert(s[6].len() <= u32::MAX && s[7].len() <= u32::MAX && s[8].len() <= u32::MAX);
    assert(s[9].len() <= u32::MAX && s[10].len() <= u32::MAX && s[11].len() <= u32::MAX);
    assert(s[12].len() <= u32::MAX);
    assert(p.ipp_proof.shaped()) by {
        assert forall|r: int, x: int| 0 <= r < p.ipp_proof.U_vecs@.len() && 0 <= x < 2 * p.ipp_proof.k
            - 2 implies Projective::bytes(#[trigger] p.ipp_proof.U_vecs@[r]@[x]).len() <= u32::MAX by {
            assert(p.ipp_proof.U_vecs@[r]@.len() == 2 * p.ipp_proof.k - 2);
        }
    }
    assert(p.ecp_batched.shaped()) by {
        assert forall|r: int, x: int| 0 <= r < p.ecp_batched.A_vecs@.len() && 0 <= x < 2 * p.ecp_batched.k
            - 2 implies Projective::bytes((#[trigger] p.ecp_batched.A_vecs@[r]@[x])@[0]).len() <= u32::MAX
            && Projective::bytes(p.ecp_batched.A_vecs@[r]@[x]@[1]).len() <= u32::MAX by {
            assert(p.ecp_batched.A_vecs@[r]@.len() == 2 * p.ecp_batched.k - 2);
        }
    }
}

/// Appends an item after its length.
fn write_bytes(buf: &mut Vec<u8>, data: &[u8], Ghost(items): Ghost<Seq<Seq<u8>>>)
    requires
        old(buf)@ == joined(prefixed_all(items, 8)),
    ensures
        final(buf)@ == joined(prefixed_all(items.push(data@), 8)),
{
    let len = write_u64(data.len() as u64);
    buf.extend_from_slice(len.as_slice());
    buf.extend_from_slice(data);
    proof {
        let all = prefixed_all(items, 8);
        lemma_joined_push(all, prefixed(data@, 8));
        assert(prefixed_all(items.push(data@), 8) =~= all.push(prefixed(data@, 8)));
        assert(buf@ =~= joined(all) + prefixed(data@, 8));
    }
}

/// Reads the points and the scalars.
fn read_items(slice: &[u8]) -> (r: Option<(Vec<Vec<u8>>, usize)>)
    ensures
        r is Some <==> items_at(slice@, 0, 21, 8) is Some,
        r matches Some(t) ==> {
            &&& t.0@.len() == 21
            &&& forall|i: int| 0 <= i < 21 ==> (#[trigger] t.0@[i])@ == items_of(slice@)[i]
            &&& t.1 == items_end(slice@)
            &&& t.1 <= slice@.len()
        },
{
    let ghost b = slice@;
    let ghost mut items = Seq::<Seq<u8>>::empty();
    let mut out: Vec<Vec<u8>> = Vec::new();
    let mut pos: usize = 0;
    let mut i: usize = 0;
    while i < 21
        invariant
            i <= 21,
            b == slice@,
            pos <= b.len(),
            items_at(b, 0, i as nat, 8) == Some((items, pos as int)),
            items.len() == i,
            out@.len() == i,
            forall|t: int| 0 <= t < i ==> (#[trigger] out@[t])@ == items[t],
        decreases 21 - i,
    {
        match get_item(slice, pos, 8) {
            Some((item, next)) => {
                proof {
                    items = items.push(item@);
                    assert(items_at(b, 0, (i + 1) as nat, 8) == Some((items, next as int)));
                }
                out.push(item);
                pos = next;
            },
            None => {
                proof {
                    assert(items_at(b, 0, (i + 1) as nat, 8) is None);
                    if items_at(b, 0, 21, 8) is Some {
                        lemma_items_prefix(b, 0, (i + 1) as nat, 21, 8);
                    }
                }
                return None;
            },
        }
        i += 1;
    }
    Some((out, pos))
}

/// Reads a scalar.
fn read_scalar(item: &Vec<u8>) -> (r: Result<Fr, ProofError>)
    ensures
        r is Ok <==> is_scalar(item@),
        r matches Err(e) ==> e == ProofError::FormatError,
        r matches Ok(s) ==> s.value() == le_value(item@.take(32)),
{
    match Fr::deserialize_compressed(item.as_slice()) {
        Some(s) => Ok(s),
        None => Err(ProofError::FormatError),
    }
}

/// Reads the two folding arguments after the points and the scalars.
fn read_arguments(slice: &[u8], pos: usize) -> (r: Result<(prove_ipa<Projective>, prove_ecp<Projective>), ProofError>)
    requires
        pos == items_end(slice@),
        pos <= slice@.len(),
    ensures
        r is Ok <==> arguments_parse(slice@),
        r matches Err(e) ==> e == ProofError::FormatError,
        r matches Ok(t) ==> {
            &&& ipa_is(t.0, ipp_part(slice@))
            &&& ipa_regular(t.0)
            &&& ecp_is(t.1, ecp_part(slice@))
            &&& ecp_regular(t.1)
        },
{
    let n: usize = slice.len();
    if n - pos < 16 {
        return Err(ProofError::FormatError);
    }
    let ipp_proof_len: u64 = read_le(slice, pos, 8);
    let ecp_batched_len: u64 = read_le(slice, pos + 8, 8);
    let rest: u64 = (n - pos - 16) as u64;
    if ipp_proof_len > rest || ecp_batched_len > rest - ipp_proof_len {
        return Err(ProofError::FormatError);
    }
    let start: usize = pos + 16;
    let middle: usize = start + ipp_proof_len as usize;
    let end: usize = middle + ecp_batched_len as usize;
    let ipp_proof = match prove_ipa::<Projective>::from_bytes(slice_subrange(slice, start, middle)) {
        Ok(p) => p,
        Err(e) => {
            return Err(e);
        },
    };
    let ecp_batched = match prove_ecp::<Projective>::from_bytes(slice_subrange(slice, middle, end)) {
        Ok(p) => p,
        Err(e) => {
            return Err(e);
        },
    };
    Ok((ipp_proof, ecp_batched))
}

impl R1CSProof<Projective> {
    /// Serializes the proof into a byte array.
    pub fn to_bytes(&self) -> (r: Vec<u8>)
        requires
            ipa_short(self.ipp_proof),
            ecp_short(self.ecp_batched),
        ensures
            r@ == proof_bytes(*self),
    {
        let mut buf: Vec<u8> = Vec::new();
        let ghost w = proof_items(*self);
        assert(prefixed_all(w.take(0), 8) =~= Seq::<Seq<u8>>::empty());
        write_bytes(&mut buf, self.A_I.as_slice(), Ghost(w.take(0)));
        assert(w.take(0).push(w[0]) =~= w.take(1));
        write_bytes(&mut buf, self.A_O.as_slice(), Ghost(w.take(1)));
        assert(w.take(1).push(w[1]) =~= w.take(2));
        write_bytes(&mut buf, self.S.as_slice(), Ghost(w.take(2)));
        assert(w.take(2).push(w[2]) =~= w.take(3));
        write_bytes(&mut buf, self.T_1.as_slice(), Ghost(w.take(3)));
        assert(w.take(3).push(w[3]) =~= w.take(4));
        write_bytes(&mut buf, self.T_2.as_slice(), Ghost(w.take(4)));
        assert(w.take(4).push(w[4]) =~= w.take(5));
        write_bytes(&mut buf, self.T_3.as_slice(), Ghost(w.take(5)));
        assert(w.take(5).push(w[5]) =~= w.take(6));
        write_bytes(&mut buf, self.T_4.as_slice(), Ghost(w.take(6)));
        assert(w.take(6).push(w[6]) =~= w.take(7));
        write_bytes(&mut buf, self.T_5.as_slice(), Ghost(w.take(7)));
        assert(w.take(7).push(w[7]) =~= w.take(8));
        write_bytes(&mut buf, self.T_6.as_slice(), Ghost(w.take(8)));
        assert(w.take(8).push(w[8]) =~= w.take(9));
        write_bytes(&mut buf, self.S_prime.as_slice(), Ghost(w.take(9)));
        assert(w.take(9).push(w[9]) =~= w.take(10));
        write_bytes(&mut buf, self.T_1_prime.as_slice(), Ghost(w.take(10)));
        assert(w.take(10).push(w[10]) =~= w.take(11));
        write_bytes(&mut buf, self.S1_prime.as_slice(), Ghost(w.take(11)));
        assert(w.take(11).push(w[11]) =~= w.take(12));
        write_bytes(&mut buf, self.S2_prime.as_slice(), Ghost(w.take(12)));
        assert(w.take(12).push(w[12]) =~= w.take(13));
        write_bytes(&mut buf, self.t_x.to_bytes().as_slice(), Ghost(w.take(13)));
        assert(w.take(13).push(w[13]) =~= w.take(14));
        write_bytes(&mut buf, self.t_x_blinding.to_bytes().as_slice(), Ghost(w.take(14)));
        assert(w.take(14).push(w[14]) =~= w.take(15));
        write_bytes(&mut buf, self.e_blinding.to_bytes().as_slice(), Ghost(w.take(15)));
        assert(w.take(15).push(w[15]) =~= w.take(16));
        write_bytes(&mut buf, self.tc_x.to_bytes().as_slice(), Ghost(w.take(16)));
        assert(w.take(16).push(w[16]) =~= w.take(17));
        write_bytes(&mut buf, self.tc_x_blinding.to_bytes().as_slice(), Ghost(w.take(17)));
        assert(w.take(17).push(w[17]) =~= w.take(18));
        write_bytes(&mut buf, self.ec_blinding.to_bytes().as_slice(), Ghost(w.take(18)));
        assert(w.take(18).push(w[18]) =~= w.take(19));
        write_bytes(&mut buf, self.t_cross.to_bytes().as_slice(), Ghost(w.take(19)));
        assert(w.take(19).push(w[19]) =~= w.take(20));
        write_bytes(&mut buf, self.r_blinding.to_bytes().as_slice(), Ghost(w.take(20)));
        assert(w.take(20).push(w[20]) =~= w);

        let ipp_bytes = self.ipp_proof.to_bytes();
        let ecp_batched_bytes = self.ecp_batched.to_bytes();
        let ipp_proof_len = write_u64(ipp_bytes.len() as u64);
        let ecp_batched_len = write_u64(ecp_batched_bytes.len() as u64);
        buf.extend_from_slice(ipp_proof_len.as_slice());
        buf.extend_from_slice(ecp_batched_len.as_slice());
        buf.extend_from_slice(ipp_bytes.as_slice());
        buf.extend_from_slice(ecp_batched_bytes.as_slice());
        assert(buf@ =~= proof_bytes(*self));
        buf
    }

    /// Deserializes the proof from a byte slice.
    pub fn from_bytes(slice: &[u8]) -> (r: Result<R1CSProof<Projective>, ProofError>)
        ensures
            r is Ok <==> proof_parses(slice@),
            r matches Err(e) ==> e == ProofError::FormatError,
            r matches Ok(p) ==> proof_is(p, slice@) && proof_regular(p),
            r matches Ok(p) ==> (all_short(proof_points(p)) ==> p.shaped()),
    {
        let (items, pos) = match read_items(slice) {
            Some(t) => t,
            None => {
                return Err(ProofError::FormatError);
            },
        };
        let t_x = read_scalar(&items[13])?;
        let t_x_blinding = read_scalar(&items[14])?;
        let e_blinding = read_scalar(&items[15])?;
        let tc_x = read_scalar(&items[16])?;
        let tc_x_blinding = read_scalar(&items[17])?;
        let ec_blinding = read_scalar(&items[18])?;
        let t_cross = read_scalar(&items[19])?;
        let r_blinding = read_scalar(&items[20])?;
        let (ipp_proof, ecp_batched) = read_arguments(slice, pos)?;
        let p: R1CSProof<Projective> = R1CSProof {
            A_I: Projective::copy_encoding(&items[0]),
            A_O: Projective::copy_encoding(&items[1]),
            S: Projective::copy_encoding(&items[2]),
            T_1: Projective::copy_encoding(&items[3]),
            T_2: Projective::copy_encoding(&items[4]),
            T_3: Projective::copy_encoding(&items[5]),
            T_4: Projective::copy_encoding(&items[6]),
            T_5: Projective::copy_encoding(&items[7]),
            T_6: Projective::copy_encoding(&items[8]),
            t_x,
            t_x_blinding,
            e_blinding,
            ipp_proof,
            S_prime: Projective::copy_encoding(&items[9]),
            T_1_prime: Projective::copy_encoding(&items[10]),
            S1_prime: Projective::copy_encoding(&items[11]),
            S2_prime: Projective::copy_encoding(&items[12]),
            tc_x,
            tc_x_blinding,
            ec_blinding,
            t_cross,
            r_blinding,
            ecp_batched,
        };
        proof {
            if all_short(proof_points(p)) {
                lemma_regular_shaped(p);
            }
        }
        Ok(p)
    }
}

/// Whoever reads what was written for a proof gets the proof back.
pub proof fn law_proof_round_trip(p: R1CSProof<Projective>, q: R1CSProof<Projective>)
    requires
        proof_regular(p),
        ipa_bytes(p.ipp_proof).len() <= u64::MAX,
        ecp_bytes(p.ecp_batched).len() <= u64::MAX,
        forall|i: int| 0 <= i < 13 ==> (#[trigger] proof_points(p)[i]).len() <= u64::MAX,
    ensures
        proof_parses(proof_bytes(p)),
        proof_is(p, proof_bytes(p)),
        proof_is(q, proof_bytes(p)) ==> same_proof(q, p),
{
    let b = proof_bytes(p);
    let items = proof_items(p);
    let ipp = ipa_bytes(p.ipp_proof);
    let ecp = ecp_bytes(p.ecp_batched);
    let mid = joined(prefixed_all(items, 8));
    lemma_pow_small();
    assert forall|i: int| 0 <= i < items.len() implies (#[trigger] items[i]).len()
        < vstd::arithmetic::power::pow(256, 8) by {
        if i < 13 {
            assert(items[i] == proof_points(p)[i]);
        } else {
            lemma_scalar_item(proof_scalars(p)[i - 13]);
        }
    }
    let rest = le_bytes(ipp.len() as int, 8) + le_bytes(ecp.len() as int, 8) + ipp + ecp;
    lemma_items_read(Seq::empty(), items, rest, 8);
    assert(Seq::<u8>::empty() + mid + rest =~= b);
    let e = mid.len() as int;
    lemma_le_bytes_len(ipp.len() as int, 8);
    lemma_le_bytes_len(ecp.len() as int, 8);
    lemma_le_value_of_bytes(ipp.len() as int, 8);
    lemma_le_value_of_bytes(ecp.len() as int, 8);
    assert(b.subrange(e, e + 8) =~= le_bytes(ipp.len() as int, 8));
    assert(b.subrange(e + 8, e + 16) =~= le_bytes(ecp.len() as int, 8));
    assert(ipp_part(b) =~= ipp);
    assert(ecp_part(b) =~= ecp);
    assert forall|i: int| 0 <= i < 8 implies (#[trigger] proof_scalars(p)[i]).value() == le_value(
        items_of(b)[13 + i].take(32),
    ) && is_scalar(items_of(b)[13 + i]) by {
        lemma_scalar_item(proof_scalars(p)[i]);
    }
    assert forall|i: int| 13 <= i < 21 implies #[trigger] is_scalar(items_of(b)[i]) by {
        assert(proof_scalars(p)[i - 13].value() == le_value(items_of(b)[13 + (i - 13)].take(32)));
    }
    law_ipa_round_trip(p.ipp_proof, q.ipp_proof);
    law_ecp_round_trip(p.ecp_batched, q.ecp_batched);
    if proof_is(q, b) {
        assert(proof_points(q) =~= proof_points(p)) by {
            assert forall|i: int| 0 <= i < 13 implies proof_points(q)[i] == proof_points(p)[i] by {
                assert(items_of(b)[i] == items[i]);
            }
        }
    }
}

} // verus!
