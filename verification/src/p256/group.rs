//! P-256 as a group.

use vstd::prelude::*;
use crate::group::{Field, Group};
use crate::modular::{lemma_md_range, md};
use crate::p256::curve::{
    Affine, Projective, compressed, lemma_point_index, p256_decoding, point_index, point_indices,
};
use crate::p256::field::{Fr, lemma_order, order};
use crate::p256::vartime_msm::vartime_multiscalar_mul;

verus! {

impl Group for Projective {
    type Scalar = Fr;

    type Point = Projective;

    type Encoding = Vec<u8>;

    open spec fn index(p: Projective) -> int {
        point_index(p)
    }

    open spec fn bytes(e: Vec<u8>) -> Seq<u8> {
        e@
    }

    open spec fn encoding(n: int) -> Seq<u8> {
        compressed(n)
    }

    open spec fn decoding(b: Seq<u8>) -> Option<int> {
        match p256_decoding(b) {
            Some(n) => Some(md(n, order())),
            None => None,
        }
    }

    proof fn index_range(p: Projective) {
        lemma_point_index(p);
    }

    proof fn decoding_range(b: Seq<u8>) {
        lemma_order();
        if p256_decoding(b) is Some {
            lemma_md_range(p256_decoding(b)->0, order());
        }
    }

    fn identity() -> (r: Projective) {
        Projective::zero()
    }

    fn is_identity(p: Projective) -> (r: bool) {
        p.is_zero()
    }

    fn plus(p: Projective, q: Projective) -> (r: Projective) {
        p.add_point(q)
    }

    fn times(p: Projective, s: Fr) -> (r: Projective) {
        p.mul_scalar(s)
    }

    fn msm(scalars: &[Fr], points: &[Projective]) -> (r: Projective) {
        let bases = Projective::normalize_batch(points);
        assert(Seq::new(points@.len(), |i: int| Self::index(points@[i])) =~= point_indices(points@));
        Projective::multi_scalar_mul(bases.as_slice(), scalars)
    }

    fn vartime_msm(scalars: &[Fr], points: &[Projective]) -> (r: Projective) {
        let bases = Projective::normalize_batch(points);
        assert(Seq::new(points@.len(), |i: int| Self::index(points@[i])) =~= point_indices(points@));
        vartime_multiscalar_mul(scalars, bases.as_slice())
    }

    fn encode(p: Projective) -> (r: Vec<u8>) {
        proof {
            lemma_point_index(p);
        }
        p.into_affine().serialize_compressed()
    }

    fn decode(e: &Vec<u8>) -> (r: Option<Projective>) {
        match Affine::deserialize_compressed(e.as_slice()) {
            Some(a) => {
                let p = a.into_group();
                proof {
                    lemma_point_index(p);
                }
                Some(p)
            },
            None => None,
        }
    }

    fn as_bytes(e: &Vec<u8>) -> (r: &[u8]) {
        e.as_slice()
    }

    fn copy_encoding(e: &Vec<u8>) -> (r: Vec<u8>) {
        let mut out: Vec<u8> = Vec::new();
        out.extend_from_slice(e.as_slice());
        assert(out@ =~= e@);
        out
    }
}

} // verus!
