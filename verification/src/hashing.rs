//! The hash functions that generators are derived with.

use vstd::prelude::*;
use vstd::utf8::encode_utf8;
use crate::bytes::{
    le_bytes, le_value, lemma_le_bytes_len, lemma_le_value_of_bytes, lemma_pow_small, write_u32,
};

verus! {

/// The 64 bytes that `sha3::Sha3_512` gives for an input.
pub uninterp spec fn sha3_512(input: Seq<u8>) -> Seq<u8>;

/// The first `n` bytes that `sha3::Shake256` gives for an input.
pub uninterp spec fn shake256(input: Seq<u8>, n: nat) -> Seq<u8>;

/// `Digest::digest` of `sha3::Sha3_512`: the hash of the input.
#[verifier::external_body]
pub(crate) fn hash_sha3_512(input: &[u8]) -> (r: [u8; 64])
    ensures
        r@ == sha3_512(input@),
{
    <sha3::Sha3_512 as sha3::Digest>::digest(input).into()
}

/// `ExtendableOutput::digest_xof` of `sha3::Shake256`: the first `n` bytes of
/// the output. Fewer bytes are a prefix of more.
#[verifier::external_body]
fn hash_shake256(input: &[u8], n: usize) -> (r: Vec<u8>)
    ensures
        r@.len() == n,
        forall|m: nat| m <= n ==> #[trigger] shake256(input@, m) == r@.take(m as int),
{
    let mut output = vec![0u8; n];
    <sha3::Shake256 as digest::ExtendableOutput>::digest_xof(input, &mut output);
    output
}

/// The `i`-th 64 bytes of the output of Shake256.
pub open spec fn shake_block(input: Seq<u8>, i: int) -> Seq<u8> {
    shake256(input, (64 * (i + 1)) as nat).subrange(64 * i, 64 * (i + 1))
}

/// The number of blocks that can be addressed.
pub open spec fn block_limit() -> int {
    usize::MAX as int / 128
}

/// The output of Shake256, read in blocks of 64 bytes.
pub struct BlockReader {
    seed: Vec<u8>,
    buffer: Vec<u8>,
    next_block: usize,
}

impl BlockReader {
    #[verifier::type_invariant]
    spec fn consistent(self) -> bool {
        forall|m: nat|
            m <= self.buffer@.len() ==> #[trigger] shake256(self.seed@, m) == self.buffer@.take(m as int)
    }

    /// The input of the hash.
    pub closed spec fn seed(self) -> Seq<u8> {
        self.seed@
    }

    /// The number of blocks that were read.
    pub closed spec fn blocks(self) -> int {
        self.next_block as int
    }

    /// A reader for the given input.
    pub fn new(seed: Vec<u8>) -> (r: Self)
        ensures
            r.seed() == seed@,
            r.blocks() == 0,
    {
        let buffer = hash_shake256(seed.as_slice(), 0);
        BlockReader { seed, buffer, next_block: 0 }
    }

    /// Whether another block can be read.
    pub fn has_next(&self) -> (r: bool)
        ensures
            r == (self.blocks() < block_limit()),
    {
        self.next_block < usize::MAX / 128
    }

    /// The next block, which stays the next one.
    pub fn peek(&mut self) -> (r: [u8; 64])
        requires
            old(self).blocks() < block_limit(),
        ensures
            r@ == shake_block(old(self).seed(), old(self).blocks()),
            shake256(old(self).seed(), (64 * old(self).blocks() + 64) as nat) == shake256(
                old(self).seed(),
                (64 * old(self).blocks()) as nat,
            ) + r@,
            final(self).seed() == old(self).seed(),
            final(self).blocks() == old(self).blocks(),
    {
        proof {
            use_type_invariant(&*self);
        }
        let start: usize = 64 * self.next_block;
        if self.buffer.len() < start + 64 {
            let buffer = hash_shake256(self.seed.as_slice(), 2 * start + 64);
            self.buffer = buffer;
        }
        proof {
            use_type_invariant(&*self);
        }
        let mut out: [u8; 64] = [0u8; 64];
        let mut i: usize = 0;
        while i < 64
            invariant
                i <= 64,
                start + 64 <= usize::MAX,
                start + 64 <= self.buffer@.len(),
                forall|j: int| 0 <= j < i ==> out@[j] == self.buffer@[start + j],
            decreases 64 - i,
        {
            out[i] = self.buffer[start + i];
            i += 1;
        }
        proof {
            let m = (start + 64) as nat;
            assert(shake256(self.seed@, m) == self.buffer@.take(m as int));
            assert(out@ =~= shake_block(old(self).seed(), old(self).blocks()));
            assert(shake256(self.seed@, start as nat) == self.buffer@.take(start as int));
            assert(self.buffer@.take(start as int) + out@ =~= self.buffer@.take(m as int));
        }
        out
    }

    /// Reads the next block.
    pub fn read(&mut self) -> (r: [u8; 64])
        requires
            old(self).blocks() < block_limit(),
        ensures
            r@ == shake_block(old(self).seed(), old(self).blocks()),
            shake256(old(self).seed(), (64 * old(self).blocks() + 64) as nat) == shake256(
                old(self).seed(),
                (64 * old(self).blocks()) as nat,
            ) + r@,
            final(self).seed() == old(self).seed(),
            final(self).blocks() == old(self).blocks() + 1,
    {
        let out = self.peek();
        proof {
            use_type_invariant(&*self);
        }
        let next: usize = self.next_block + 1;
        self.next_block = next;
        out
    }
}

/// The input from which a chain of generators with a label is derived.
pub open spec fn chain_seed(label: Seq<u8>) -> Seq<u8> {
    encode_utf8("GeneratorsChain"@) + label
}

/// The label of the generators of a kind for a party.
pub open spec fn party_label(kind: u8, party: usize) -> Seq<u8> {
    seq![kind] + le_bytes(party as u32 as int, 4)
}

/// Joins two byte strings.
pub(crate) fn concat(a: &[u8], b: &[u8]) -> (r: Vec<u8>)
    ensures
        r@ == a@ + b@,
{
    let mut out: Vec<u8> = Vec::new();
    out.extend_from_slice(a);
    out.extend_from_slice(b);
    assert(out@ =~= a@ + b@);
    out
}

/// The input from which the chain of generators with a label is derived.
pub(crate) fn seed_for(label: &[u8]) -> (r: Vec<u8>)
    ensures
        r@ == chain_seed(label@),
{
    concat("GeneratorsChain".as_bytes(), label)
}

/// The label of the generators of a kind for a party.
pub(crate) fn label_for(kind: u8, party: usize) -> (r: Vec<u8>)
    ensures
        r@ == party_label(kind, party),
{
    let index = write_u32(party as u32);
    let mut out: Vec<u8> = Vec::new();
    out.push(kind);
    let out2 = concat(out.as_slice(), index.as_slice());
    assert(out2@ =~= party_label(kind, party));
    out2
}

/// A label is the kind and the number of the party in four bytes, so that
/// different kinds or parties have different labels.
pub proof fn law_party_label(kind: u8, party: usize, other_kind: u8, other: usize)
    requires
        party <= u32::MAX,
        other <= u32::MAX,
    ensures
        party_label(kind, party).len() == 5,
        party_label(kind, party)[0] == kind,
        le_value(party_label(kind, party).skip(1)) == party,
        party_label(kind, party) == party_label(other_kind, other) ==> kind == other_kind && party == other,
{
    lemma_pow_small();
    lemma_le_bytes_len(party as int, 4);
    lemma_le_bytes_len(other as int, 4);
    lemma_le_value_of_bytes(party as int, 4);
    lemma_le_value_of_bytes(other as int, 4);
    assert(party_label(kind, party).skip(1) =~= le_bytes(party as int, 4));
    assert(party_label(other_kind, other).skip(1) =~= le_bytes(other as int, 4));
    assert(party_label(kind, party)[0] == kind);
    assert(party_label(other_kind, other)[0] == other_kind);
}

/// What a chain is derived from ends with its label, so that chains with
/// different labels are derived from different inputs.
pub proof fn law_chain_seed(label: Seq<u8>, other: Seq<u8>)
    ensures
        chain_seed(label).len() == encode_utf8("GeneratorsChain"@).len() + label.len(),
        chain_seed(label).take(chain_seed(label).len() - label.len()) == encode_utf8("GeneratorsChain"@),
        chain_seed(label).skip(chain_seed(label).len() - label.len()) == label,
        chain_seed(label) == chain_seed(other) ==> label == other,
{
    let n = encode_utf8("GeneratorsChain"@).len() as int;
    assert(chain_seed(label).take(n) =~= encode_utf8("GeneratorsChain"@));
    assert(chain_seed(label).skip(n) =~= label);
    assert(chain_seed(other).skip(n) =~= other);
}

} // verus!
