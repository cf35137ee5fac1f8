//! The generators for proofs over Ristretto255.

use vstd::prelude::*;
use vstd::utf8::encode_utf8;
use crate::bytes::{le_value, lemma_le_bytes_of_value};
use crate::generators::{BulletproofGens, PedersenGens};
use crate::group::Group;
use crate::hashing::{
    BlockReader, block_limit, chain_seed, concat, hash_sha3_512, label_for, law_party_label, party_label,
    seed_for, sha3_512, shake256, shake_block,
};
use crate::ristretto::point::{RistrettoPoint, point_index, ristretto_encoding, ristretto_from_uniform};

verus! {

/// The `i`-th generator of the chain with a label, by its index.
pub open spec fn generator(label: Seq<u8>, i: int) -> int {
    ristretto_from_uniform(shake_block(chain_seed(label), i))
}

/// The `GeneratorsChain` creates an arbitrary-long sequence of orthogonal
/// generators. The sequence is produced deterministically from a label.
pub struct GeneratorsChain {
    reader: BlockReader,
}

impl GeneratorsChain {
    /// The input that the chain is derived from.
    pub closed spec fn seed(self) -> Seq<u8> {
        self.reader.seed()
    }

    /// The number of generators that were produced.
    pub closed spec fn produced(self) -> int {
        self.reader.blocks()
    }

    /// Creates a chain of generators, determined by the hash of `label`.
    pub fn new(label: &[u8]) -> (r: Self)
        ensures
            r.seed() == chain_seed(label@),
            r.produced() == 0,
    {
        GeneratorsChain { reader: BlockReader::new(seed_for(label)) }
    }

    /// The next generator.
    pub fn next(&mut self) -> (r: Option<RistrettoPoint>)
        requires
            old(self).produced() < block_limit(),
        ensures
            r is Some,
            point_index(r->0) == ristretto_from_uniform(
                shake_block(old(self).seed(), old(self).produced()),
            ),
            final(self).seed() == old(self).seed(),
            final(self).produced() == old(self).produced() + 1,
    {
        let uniform_bytes = self.reader.read();
        Some(RistrettoPoint::from_uniform_bytes(&uniform_bytes))
    }

    /// The first `n` generators.
    fn take(self, n: usize) -> (r: Vec<RistrettoPoint>)
        requires
            self.produced() == 0,
            n <= block_limit(),
        ensures
            r@.len() == n,
            forall|i: int|
                0 <= i < n ==> point_index(#[trigger] r@[i]) == ristretto_from_uniform(
                    shake_block(self.seed(), i),
                ),
    {
        let mut chain = self;
        let mut out: Vec<RistrettoPoint> = Vec::new();
        let mut i: usize = 0;
        while i < n
            invariant
                i <= n <= block_limit(),
                chain.produced() == i,
                chain.seed() == self.seed(),
                out@.len() == i,
                forall|j: int|
                    0 <= j < i ==> point_index(#[trigger] out@[j]) == ristretto_from_uniform(
                        shake_block(self.seed(), j),
                    ),
            decreases n - i,
        {
            match chain.next() {
                Some(p) => {
                    out.push(p);
                },
                None => {},
            }
            i += 1;
        }
        out
    }
}

impl Default for GeneratorsChain {
    /// The chain with the empty label.
    fn default() -> (r: Self)
        ensures
            r.seed() == chain_seed(Seq::empty()),
            r.produced() == 0,
    {
        let label: Vec<u8> = Vec::new();
        GeneratorsChain::new(label.as_slice())
    }
}

impl Default for PedersenGens<RistrettoPoint> {
    /// `B` is the generator of the group; the other two bases are hashes of
    /// its encoding.
    fn default() -> (r: Self)
        ensures
            point_index(r.B) == 1,
            point_index(r.B_blinding) == ristretto_from_uniform(sha3_512(ristretto_encoding(1))),
            point_index(r.F) == ristretto_from_uniform(
                sha3_512(encode_utf8("PedersenGens_F"@) + ristretto_encoding(1)),
            ),
    {
        let B = RistrettoPoint::generator();
        let compressed = B.compress();
        let hash_blinding = hash_sha3_512(compressed.0.as_slice());
        let input = concat("PedersenGens_F".as_bytes(), compressed.0.as_slice());
        let hash_f = hash_sha3_512(input.as_slice());
        PedersenGens {
            B,
            B_blinding: RistrettoPoint::from_uniform_bytes(&hash_blinding),
            F: RistrettoPoint::from_uniform_bytes(&hash_f),
        }
    }
}

/// The generators of a kind for a number of parties.
pub open spec fn are_generators(vs: Seq<Vec<RistrettoPoint>>, kind: u8, n: int, parties: int) -> bool {
    &&& vs.len() == parties
    &&& forall|j: int| 0 <= j < parties ==> (#[trigger] vs[j])@.len() == n
    &&& forall|j: int, i: int|
        0 <= j < parties && 0 <= i < n ==> point_index(#[trigger] vs[j]@[i]) == generator(
            party_label(kind, j as usize),
            i,
        )
}

/// Creates the generators of a kind for a number of parties.
fn party_generators(kind: u8, gens_capacity: usize, party_capacity: usize) -> (r: Vec<Vec<RistrettoPoint>>)
    requires
        gens_capacity <= block_limit(),
    ensures
        are_generators(r@, kind, gens_capacity as int, party_capacity as int),
{
    let mut out: Vec<Vec<RistrettoPoint>> = Vec::new();
    let mut j: usize = 0;
    while j < party_capacity
        invariant
            j <= party_capacity,
            gens_capacity <= block_limit(),
            are_generators(out@, kind, gens_capacity as int, j as int),
        decreases party_capacity - j,
    {
        let label = label_for(kind, j);
        let gens = GeneratorsChain::new(label.as_slice()).take(gens_capacity);
        let ghost before = out@;
        out.push(gens);
        assert(forall|t: int| 0 <= t < j ==> out@[t] == before[t]);
        j += 1;
    }
    out
}

impl BulletproofGens<RistrettoPoint> {
    /// Creates a new `BulletproofGens` object.
    ///
    /// `gens_capacity` is the number of generators to precompute for each
    /// party, `party_capacity` the maximum number of parties. The label of a
    /// chain is the letter `G` or `H` and the number of the party.
    pub fn new(gens_capacity: usize, party_capacity: usize) -> (r: Self)
        requires
            gens_capacity <= block_limit(),
        ensures
            r.wf(),
            r.gens_capacity == gens_capacity,
            r.party_capacity == party_capacity,
            are_generators(r.G_vec@, 71, gens_capacity as int, party_capacity as int),
            are_generators(r.H_vec@, 72, gens_capacity as int, party_capacity as int),
    {
        BulletproofGens {
            gens_capacity,
            party_capacity,
            G_vec: party_generators(71, gens_capacity, party_capacity),
            H_vec: party_generators(72, gens_capacity, party_capacity),
        }
    }
}

/// Generator `i` of party `j` is the element that bytes `64 i` to `64 i + 63` of
/// the hash are mapped to, where the hash is that of a fixed text, the kind and
/// the number of the party in four bytes.
pub proof fn law_generators(
    vs: Seq<Vec<RistrettoPoint>>,
    kind: u8,
    n: int,
    parties: int,
    j: int,
    i: int,
    label: Seq<u8>,
)
    requires
        are_generators(vs, kind, n, parties),
        0 <= j < parties,
        j <= u32::MAX,
        j <= usize::MAX,
        0 <= i < n,
        label.len() == 5,
        label[0] == kind,
        le_value(label.skip(1)) == j,
    ensures
        vs.len() == parties,
        vs[j]@.len() == n,
        point_index(vs[j]@[i]) == ristretto_from_uniform(
            shake256(encode_utf8("GeneratorsChain"@) + label, (64 * i + 64) as nat).subrange(
                64 * i,
                64 * i + 64,
            ),
        ),
{
    law_party_label(kind, j as usize, kind, j as usize);
    let own = party_label(kind, j as usize);
    lemma_le_bytes_of_value(label.skip(1));
    lemma_le_bytes_of_value(own.skip(1));
    assert(own =~= seq![own[0]] + own.skip(1));
    assert(label =~= seq![label[0]] + label.skip(1));
    assert(point_index(vs[j]@[i]) == generator(own, i));
}

} // verus!
