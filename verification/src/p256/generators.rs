//! The generators for proofs over P-256.
//!
//! Generators are found by trying one block of a hash after the other until
//! one is the first coordinate of a point.

use std::marker::PhantomData;
use vstd::arithmetic::div_mod::lemma_mod_equivalence;
use vstd::arithmetic::power::pow;
use vstd::prelude::*;
use vstd::utf8::{encode_utf8, is_ascii_chars_encode_utf8};
use crate::generators::{BulletproofGens, HashToGroup, PedersenGens};
use crate::group::Group;
use crate::hashing::{
    BlockReader, block_limit, chain_seed, label_for, law_chain_seed, law_party_label, party_label, seed_for,
    shake256, shake_block,
};
use crate::modular::{
    add_mod, eqm, lemma_eqm_add, lemma_eqm_mul, lemma_md_range, lemma_mod_range, md, mul_mod,
};
use crate::p256::curve::{Affine, Projective, coeff_b, curve_rhs, on_curve, p256_index};
use crate::p256::field::{
    fq_add, fq_from_le_bytes, fq_mul, fq_sqrt, lemma_prime, limb_value, prime, root_candidate,
};
use crate::bytes::{le_value, lemma_le_bytes_of_value};

verus! {

/// The first coordinate that 64 bytes stand for.
pub open spec fn candidate_x(bytes: Seq<u8>) -> int {
    md(le_value(bytes), prime())
}

/// The index of the point that 64 bytes are mapped to.
pub open spec fn hashed_point(bytes: Seq<u8>) -> Option<int> {
    let x = candidate_x(bytes);
    let y = root_candidate(curve_rhs(x));
    if mul_mod(y, y, prime()) == curve_rhs(x) {
        Some(p256_index(x, y))
    } else {
        None
    }
}

/// Bytes are mapped to a point only if the number that they hold, in little
/// endian order and up to a multiple of the prime, is its first coordinate.
///
/// They are mapped to none only if the right side of the equation of the curve
/// is not the square of the root that is tried.
pub proof fn law_hashed_point(bytes: Seq<u8>)
    ensures
        ({
            let x = le_value(bytes) % prime();
            let right = x * x * x - 3 * x + coeff_b();
            let y = root_candidate(right % prime());
            match hashed_point(bytes) {
                Some(n) => n == p256_index(x, y) && on_curve(x, y) && (y * y - right) % prime() == 0,
                None => (y * y - right) % prime() != 0,
            }
        }),
{
    let x = candidate_x(bytes);
    let y = root_candidate(curve_rhs(x));
    lemma_prime();
    lemma_md_range(le_value(bytes), prime());
    reveal(md);
    reveal(mul_mod);
    lemma_md_range(x * x * x - 3 * x + coeff_b(), prime());
    lemma_md_range(pow(curve_rhs(x), ((prime() + 1) / 4) as nat), prime());
    lemma_md_range(y * y, prime());
    lemma_mod_range(y, y, prime());
    let right = x * x * x - 3 * x + coeff_b();
    lemma_mod_equivalence(y * y, right, prime());
}

/// The coefficient of `x` in the equation of the curve, `-3`.
fn coefficient_a() -> (r: [u64; 4])
    ensures
        limb_value(r@) == prime() - 3,
{
    proof {
        reveal(prime);
    }
    [0xffff_ffff_ffff_fffc, 0x0000_0000_ffff_ffff, 0, 0xffff_ffff_0000_0001]
}

/// The constant coefficient in the equation of the curve.
fn coefficient_b() -> (r: [u64; 4])
    ensures
        limb_value(r@) == coeff_b(),
        coeff_b() < prime(),
{
    proof {
        reveal(prime);
        reveal(coeff_b);
    }
    [0x3bce_3c3e_27d2_604b, 0x651d_06b0_cc53_b0f6, 0xb3eb_bd55_7698_86bc, 0x5ac6_35d8_aa3a_93e7]
}

/// The right-hand side of the equation, computed step by step.
proof fn lemma_rhs(x: int, x2: int, x3: int, ax: int, s: int, r: int)
    requires
        x2 == mul_mod(x, x, prime()),
        x3 == mul_mod(x2, x, prime()),
        ax == mul_mod(prime() - 3, x, prime()),
        s == add_mod(x3, ax, prime()),
        r == add_mod(s, coeff_b(), prime()),
    ensures
        r == curve_rhs(x),
{
    let p = prime();
    lemma_prime();
    reveal(mul_mod);
    reveal(add_mod);
    reveal(md);
    let b = coeff_b();
    assert(x2 == md(x * x, p) && x3 == md(x2 * x, p) && ax == md((p - 3) * x, p) && s == md(x3 + ax, p) && r
        == md(s + b, p));
    lemma_md_range(x * x, p);
    lemma_eqm_mul(x2, x * x, x, x, p);
    lemma_md_range(x2 * x, p);
    assert(eqm(x3, x * x * x, p));
    lemma_md_range((p - 3) * x, p);
    assert((p - 3) * x == p * x - 3 * x) by (nonlinear_arith);
    assert(eqm(p * x - 3 * x, -3 * x, p)) by {
        vstd::arithmetic::div_mod::lemma_mod_multiples_vanish(x, -3 * x, p);
        assert(p * x + -3 * x == p * x - 3 * x);
    }
    lemma_eqm_add(x3, x * x * x, ax, -3 * x, p);
    lemma_md_range(x3 + ax, p);
    lemma_eqm_add(s, x * x * x + -3 * x, b, b, p);
}

impl HashToGroup for Projective {
    open spec fn hashed(bytes: Seq<u8>) -> Option<int> {
        hashed_point(bytes)
    }

    fn try_from_uniform_bytes(bytes: &[u8; 64]) -> (r: Option<Projective>) {
        let x = fq_from_le_bytes(bytes.as_slice());
        let ghost xv = limb_value(x@);
        proof {
            lemma_prime();
            lemma_md_range(le_value(bytes@), prime());
            lemma_mod_range(xv, xv, prime());
        }
        let x2 = fq_mul(x, x);
        proof {
            lemma_mod_range(limb_value(x2@), xv, prime());
            lemma_mod_range(prime() - 3, xv, prime());
        }
        let x3 = fq_mul(x2, x);
        let ax = fq_mul(coefficient_a(), x);
        proof {
            lemma_mod_range(limb_value(x3@), limb_value(ax@), prime());
        }
        let sum = fq_add(x3, ax);
        proof {
            lemma_mod_range(limb_value(sum@), coeff_b(), prime());
        }
        let rhs = fq_add(sum, coefficient_b());
        proof {
            lemma_rhs(
                xv,
                limb_value(x2@),
                limb_value(x3@),
                limb_value(ax@),
                limb_value(sum@),
                limb_value(rhs@),
            );
        }
        match fq_sqrt(rhs) {
            Some(y) => {
                proof {
                    let yv = limb_value(y@);
                    lemma_md_range(pow(curve_rhs(xv), ((prime() + 1) / 4) as nat), prime());
                    reveal(mul_mod);
                    reveal(md);
                    assert(on_curve(xv, yv));
                }
                Some(Affine::new(x, y).into_group())
            },
            None => None,
        }
    }
}

// ---------------------------------------------------------------------------
// Chains
// ---------------------------------------------------------------------------

/// Block `j` is the first from block `from` on that is mapped to an element.
pub open spec fn is_hit<G: HashToGroup>(seed: Seq<u8>, from: int, j: int) -> bool {
    &&& from <= j
    &&& G::hashed(shake_block(seed, j)) is Some
    &&& forall|i: int| from <= i < j ==> G::hashed(#[trigger] shake_block(seed, i)) is None
}

/// The first block from `from` on that is mapped to an element.
pub open spec fn hit_after<G: HashToGroup>(seed: Seq<u8>, from: int) -> int {
    choose|j: int| is_hit::<G>(seed, from, j)
}

/// The number of blocks that the first `i` generators take.
pub open spec fn blocks_for<G: HashToGroup>(seed: Seq<u8>, i: nat) -> int
    decreases i,
{
    if i == 0 {
        0
    } else {
        hit_after::<G>(seed, blocks_for::<G>(seed, (i - 1) as nat)) + 1
    }
}

/// The blocks that can be addressed are enough for `i` generators.
pub open spec fn supplies<G: HashToGroup>(seed: Seq<u8>, i: nat) -> bool
    decreases i,
{
    i == 0 || (supplies::<G>(seed, (i - 1) as nat) && exists|j: int|
        #[trigger] is_hit::<G>(seed, blocks_for::<G>(seed, (i - 1) as nat), j) && j < block_limit())
}

/// The `i`-th generator of a chain, by its index.
pub open spec fn chain_generator<G: HashToGroup>(seed: Seq<u8>, i: int) -> int {
    G::hashed(shake_block(seed, hit_after::<G>(seed, blocks_for::<G>(seed, i as nat))))->0
}

/// There is no more than one first block.
proof fn lemma_hit_unique<G: HashToGroup>(seed: Seq<u8>, from: int, j: int)
    requires
        is_hit::<G>(seed, from, j),
    ensures
        hit_after::<G>(seed, from) == j,
{
    let k = hit_after::<G>(seed, from);
    assert(is_hit::<G>(seed, from, k));
    if k < j {
        assert(G::hashed(shake_block(seed, k)) is None);
    }
    if j < k {
        assert(G::hashed(shake_block(seed, j)) is None);
    }
}

/// What supplies more generators supplies fewer.
proof fn lemma_supplies_fewer<G: HashToGroup>(seed: Seq<u8>, i: nat, n: nat)
    requires
        i <= n,
        supplies::<G>(seed, n),
    ensures
        supplies::<G>(seed, i),
    decreases n,
{
    if i < n {
        lemma_supplies_fewer::<G>(seed, i, (n - 1) as nat);
    }
}

/// The number of blocks before block `n` that are mapped to elements.
pub open spec fn hits<G: HashToGroup>(seed: Seq<u8>, n: int) -> int
    decreases n,
{
    if n <= 0 {
        0
    } else {
        hits::<G>(seed, n - 1) + if G::hashed(
            shake256(seed, (64 * n) as nat).subrange(64 * n - 64, 64 * n),
        ) is Some {
            1int
        } else {
            0
        }
    }
}

/// No block from `from` to `to` is mapped to an element.
proof fn lemma_no_hits<G: HashToGroup>(seed: Seq<u8>, from: int, to: int)
    requires
        0 <= from <= to,
        forall|i: int| from <= i < to ==> G::hashed(#[trigger] shake_block(seed, i)) is None,
    ensures
        hits::<G>(seed, to) == hits::<G>(seed, from),
    decreases to - from,
{
    if from < to {
        lemma_no_hits::<G>(seed, from, to - 1);
        assert(G::hashed(shake_block(seed, to - 1)) is None);
    }
}

proof fn lemma_hits_for<G: HashToGroup>(seed: Seq<u8>, i: nat)
    requires
        supplies::<G>(seed, i),
    ensures
        0 <= blocks_for::<G>(seed, i),
        hits::<G>(seed, blocks_for::<G>(seed, i)) == i,
    decreases i,
{
    if i > 0 {
        lemma_hits_for::<G>(seed, (i - 1) as nat);
        let from = blocks_for::<G>(seed, (i - 1) as nat);
        let j = choose|j: int| #[trigger] is_hit::<G>(seed, from, j) && j < block_limit();
        lemma_hit_unique::<G>(seed, from, j);
        lemma_no_hits::<G>(seed, from, j);
        assert(G::hashed(shake_block(seed, j)) is Some);
    }
}

/// Generator `i` of a chain is what the block is mapped to which comes after
/// exactly `i` others that are mapped to elements: none is left out, and none
/// comes twice.
pub proof fn law_chain_generator<G: HashToGroup>(seed: Seq<u8>, i: nat)
    requires
        supplies::<G>(seed, i + 1),
    ensures
        exists|j: int|
            {
                &&& 0 <= j < block_limit()
                &&& hits::<G>(seed, j) == i
                &&& #[trigger] G::hashed(shake256(seed, (64 * j + 64) as nat).subrange(64 * j, 64 * j + 64)) == Some(
                    chain_generator::<G>(seed, i as int),
                )
            },
{
    lemma_hits_for::<G>(seed, i);
    let from = blocks_for::<G>(seed, i);
    let j = choose|j: int| #[trigger] is_hit::<G>(seed, from, j) && j < block_limit();
    lemma_hit_unique::<G>(seed, from, j);
    lemma_no_hits::<G>(seed, from, j);
    assert(shake_block(seed, j) == shake256(seed, (64 * j + 64) as nat).subrange(64 * j, 64 * j + 64));
    assert(hits::<G>(seed, j) == i);
    assert(G::hashed(shake256(seed, (64 * j + 64) as nat).subrange(64 * j, 64 * j + 64)) is Some);
}

/// Later blocks do not take back what earlier ones gave.
proof fn lemma_hits_grow<G: HashToGroup>(seed: Seq<u8>, from: int, to: int)
    requires
        0 <= from <= to,
    ensures
        hits::<G>(seed, from) <= hits::<G>(seed, to),
        hits::<G>(seed, from) == hits::<G>(seed, to) ==> forall|i: int|
            from <= i < to ==> G::hashed(#[trigger] shake_block(seed, i)) is None,
    decreases to - from,
{
    if from < to {
        lemma_hits_grow::<G>(seed, from, to - 1);
        let last = shake256(seed, (64 * to) as nat).subrange(64 * to - 64, 64 * to);
        assert(last == shake_block(seed, to - 1));
    }
}

/// If more blocks are hits before `to` than before `from`, there is a first
/// one between them.
proof fn lemma_first_hit<G: HashToGroup>(seed: Seq<u8>, from: int, to: int)
    requires
        0 <= from <= to,
        hits::<G>(seed, from) < hits::<G>(seed, to),
    ensures
        exists|j: int| #[trigger] is_hit::<G>(seed, from, j) && j < to,
    decreases to - from,
{
    if hits::<G>(seed, from) < hits::<G>(seed, to - 1) {
        lemma_first_hit::<G>(seed, from, to - 1);
        let j = choose|j: int| #[trigger] is_hit::<G>(seed, from, j) && j < to - 1;
        assert(is_hit::<G>(seed, from, j) && j < to);
    } else {
        lemma_hits_grow::<G>(seed, from, to - 1);
        let last = shake256(seed, (64 * to) as nat).subrange(64 * to - 64, 64 * to);
        assert(last == shake_block(seed, to - 1));
        assert(is_hit::<G>(seed, from, to - 1));
    }
}

/// The blocks are enough for `i` generators if and only if at least `i` of
/// them are mapped to elements.
pub proof fn law_supplies<G: HashToGroup>(seed: Seq<u8>, i: nat)
    ensures
        supplies::<G>(seed, i) <==> i <= hits::<G>(seed, usize::MAX as int / 128),
        supplies::<G>(seed, i) ==> blocks_for::<G>(seed, i) <= usize::MAX as int / 128,
    decreases i,
{
    let limit = usize::MAX as int / 128;
    if i == 0 {
        lemma_hits_grow::<G>(seed, 0, limit);
    } else {
        let before = (i - 1) as nat;
        law_supplies::<G>(seed, before);
        if supplies::<G>(seed, before) {
            lemma_hits_for::<G>(seed, before);
            let from = blocks_for::<G>(seed, before);
            if i <= hits::<G>(seed, limit) {
                lemma_first_hit::<G>(seed, from, limit);
            }
            if supplies::<G>(seed, i) {
                let j = choose|j: int| #[trigger] is_hit::<G>(seed, from, j) && j < block_limit();
                lemma_hit_unique::<G>(seed, from, j);
                lemma_hits_for::<G>(seed, i);
                lemma_hits_grow::<G>(seed, blocks_for::<G>(seed, i), limit);
            }
        }
    }
}

/// A chain of generators that is determined by a label.
pub struct GeneratorsChain<G: HashToGroup> {
    reader: BlockReader,
    _marker: PhantomData<G>,
}

impl<G: HashToGroup> GeneratorsChain<G> {
    /// The input that the chain is derived from.
    pub closed spec fn seed(self) -> Seq<u8> {
        self.reader.seed()
    }

    /// The number of blocks that were tried.
    pub closed spec fn tried(self) -> int {
        self.reader.blocks()
    }

    /// Creates a chain of generators, determined by the hash of `label`.
    pub fn new(label: &[u8]) -> (r: Self)
        ensures
            r.seed() == chain_seed(label@),
            r.tried() == 0,
    {
        GeneratorsChain { reader: BlockReader::new(seed_for(label)), _marker: PhantomData }
    }

    /// One of the blocks that can be addressed gives the next generator.
    pub open spec fn has_next(self) -> bool {
        exists|j: int| #[trigger] is_hit::<G>(self.seed(), self.tried(), j) && j < block_limit()
    }

    /// The next generator.
    pub fn next(&mut self) -> (r: Option<G::Point>)
        requires
            old(self).has_next(),
        ensures
            r is Some,
            final(self).seed() == old(self).seed(),
            is_hit::<G>(old(self).seed(), old(self).tried(), final(self).tried() - 1),
            G::hashed(shake_block(old(self).seed(), final(self).tried() - 1)) == Some(G::index(r->0)),
    {
        proof {
            let j = choose|j: int| #[trigger]
                is_hit::<G>(self.seed(), self.tried(), j) && j < block_limit();
            assert(G::hashed(shake_block(self.seed(), j)) is Some);
        }
        self.advance()
    }

    /// The next generator, if one of the blocks that can be addressed gives it.
    pub fn try_next(&mut self) -> (r: Option<G::Point>)
        ensures
            r is Some <==> old(self).has_next(),
            final(self).seed() == old(self).seed(),
            r matches Some(p) ==> {
                let j = final(self).tried() - 1;
                &&& is_hit::<G>(old(self).seed(), old(self).tried(), j)
                &&& G::hashed(shake_block(old(self).seed(), j)) == Some(G::index(p))
            },
    {
        if self.seek() {
            self.next()
        } else {
            None
        }
    }

    /// Passes over the blocks that give no generator. Returns whether one
    /// comes after them.
    fn seek(&mut self) -> (r: bool)
        ensures
            r == old(self).has_next(),
            final(self).seed() == old(self).seed(),
            final(self).has_next() == old(self).has_next(),
            forall|j: int| #[trigger]
                is_hit::<G>(old(self).seed(), old(self).tried(), j) == is_hit::<G>(
                    final(self).seed(),
                    final(self).tried(),
                    j,
                ),
    {
        while self.reader.has_next()
            invariant
                self.seed() == old(self).seed(),
                old(self).tried() <= self.tried(),
                forall|j: int|
                    old(self).tried() <= j < self.tried() ==> G::hashed(
                        #[trigger] shake_block(old(self).seed(), j),
                    ) is None,
            decreases block_limit() - self.tried(),
        {
            let bytes = self.reader.peek();
            if G::try_from_uniform_bytes(&bytes).is_some() {
                proof {
                    assert(is_hit::<G>(old(self).seed(), old(self).tried(), self.tried()));
                    assert(is_hit::<G>(self.seed(), self.tried(), self.tried()));
                    assert(self.tried() < block_limit());
                }
                return true;
            }
            let _ = self.reader.read();
        }
        false
    }

    /// The next generator, unless the blocks run out.
    fn advance(&mut self) -> (r: Option<G::Point>)
        ensures
            final(self).seed() == old(self).seed(),
            r matches Some(p) ==> {
                let j = final(self).tried() - 1;
                &&& is_hit::<G>(old(self).seed(), old(self).tried(), j)
                &&& j < block_limit()
                &&& G::hashed(shake_block(old(self).seed(), j)) == Some(G::index(p))
            },
            r is None ==> forall|j: int|
                old(self).tried() <= j < block_limit() ==> G::hashed(
                    #[trigger] shake_block(old(self).seed(), j),
                ) is None,
    {
        while self.reader.has_next()
            invariant
                self.seed() == old(self).seed(),
                old(self).tried() <= self.tried(),
                forall|j: int|
                    old(self).tried() <= j < self.tried() ==> G::hashed(
                        #[trigger] shake_block(old(self).seed(), j),
                    ) is None,
            decreases block_limit() - self.tried(),
        {
            let bytes = self.reader.read();
            if let Some(pt) = G::try_from_uniform_bytes(&bytes) {
                return Some(pt);
            }
        }
        None
    }

    /// The first `n` generators, unless the blocks run out.
    fn take(self, n: usize) -> (r: Option<Vec<G::Point>>)
        requires
            self.tried() == 0,
        ensures
            r is Some <==> supplies::<G>(self.seed(), n as nat),
            r matches Some(v) ==> {
                &&& v@.len() == n
                &&& forall|i: int|
                    0 <= i < n ==> G::index(#[trigger] v@[i]) == chain_generator::<G>(self.seed(), i)
            },
    {
        let ghost seed = self.seed();
        let mut chain = self;
        let mut out: Vec<G::Point> = Vec::new();
        let mut i: usize = 0;
        while i < n
            invariant
                i <= n,
                seed == self.seed(),
                chain.seed() == seed,
                chain.tried() == blocks_for::<G>(seed, i as nat),
                supplies::<G>(seed, i as nat),
                out@.len() == i,
                forall|j: int| 0 <= j < i ==> G::index(#[trigger] out@[j]) == chain_generator::<G>(seed, j),
            decreases n - i,
        {
            let ghost from = chain.tried();
            match chain.advance() {
                Some(p) => {
                    proof {
                        lemma_hit_unique::<G>(seed, from, chain.tried() - 1);
                    }
                    out.push(p);
                },
                None => {
                    proof {
                        if supplies::<G>(seed, n as nat) {
                            lemma_supplies_fewer::<G>(seed, (i + 1) as nat, n as nat);
                            let j = choose|j: int| #[trigger] is_hit::<G>(seed, from, j) && j < block_limit();
                            assert(G::hashed(shake_block(seed, j)) is None);
                        }
                    }
                    return None;
                },
            }
            i += 1;
        }
        Some(out)
    }
}

/// The chains of a kind for a number of parties have `n` generators each.
pub open spec fn all_supply<G: HashToGroup>(kind: u8, n: int, parties: int) -> bool {
    forall|j: int|
        0 <= j < parties ==> supplies::<G>(chain_seed(#[trigger] party_label(kind, j as usize)), n as nat)
}

/// The generators of a kind for a number of parties.
pub open spec fn are_generators<G: HashToGroup>(
    vs: Seq<Vec<G::Point>>,
    kind: u8,
    n: int,
    parties: int,
) -> bool {
    &&& vs.len() == parties
    &&& forall|j: int| 0 <= j < parties ==> (#[trigger] vs[j])@.len() == n
    &&& forall|j: int, i: int|
        0 <= j < parties && 0 <= i < n ==> G::index(#[trigger] vs[j]@[i]) == chain_generator::<G>(
            chain_seed(party_label(kind, j as usize)),
            i,
        )
}

/// Creates the generators of a kind for a number of parties.
fn party_generators<G: HashToGroup>(kind: u8, gens_capacity: usize, party_capacity: usize) -> (r: Option<
    Vec<Vec<G::Point>>,
>)
    ensures
        r is Some <==> all_supply::<G>(kind, gens_capacity as int, party_capacity as int),
        r matches Some(vs) ==> are_generators::<G>(vs@, kind, gens_capacity as int, party_capacity as int),
{
    let mut out: Vec<Vec<G::Point>> = Vec::new();
    let mut j: usize = 0;
    while j < party_capacity
        invariant
            j <= party_capacity,
            all_supply::<G>(kind, gens_capacity as int, j as int),
            are_generators::<G>(out@, kind, gens_capacity as int, j as int),
        decreases party_capacity - j,
    {
        let label = label_for(kind, j);
        match GeneratorsChain::<G>::new(label.as_slice()).take(gens_capacity) {
            Some(gens) => {
                let ghost before = out@;
                out.push(gens);
                assert(forall|t: int| 0 <= t < j ==> out@[t] == before[t]);
            },
            None => {
                proof {
                    let t = j as int;
                    assert(!supplies::<G>(chain_seed(party_label(kind, t as usize)), gens_capacity as nat));
                }
                return None;
            },
        }
        j += 1;
    }
    Some(out)
}

/// The hash has enough blocks that are mapped to elements.
pub open spec fn can_generate<G: HashToGroup>(gens_capacity: int, party_capacity: int) -> bool {
    &&& all_supply::<G>(71, gens_capacity, party_capacity)
    &&& all_supply::<G>(72, gens_capacity, party_capacity)
}

impl<G: HashToGroup> BulletproofGens<G> {
    /// Creates a new `BulletproofGens` object.
    ///
    /// `gens_capacity` is the number of generators to precompute for each
    /// party, `party_capacity` the maximum number of parties. The label of a
    /// chain is the letter `G` or `H` and the number of the party.
    pub fn new(gens_capacity: usize, party_capacity: usize) -> (r: Self)
        requires
            can_generate::<G>(gens_capacity as int, party_capacity as int),
        ensures
            r.wf(),
            r.gens_capacity == gens_capacity,
            r.party_capacity == party_capacity,
            are_generators::<G>(r.G_vec@, 71, gens_capacity as int, party_capacity as int),
            are_generators::<G>(r.H_vec@, 72, gens_capacity as int, party_capacity as int),
    {
        BulletproofGens {
            gens_capacity,
            party_capacity,
            G_vec: party_generators::<G>(71, gens_capacity, party_capacity).unwrap(),
            H_vec: party_generators::<G>(72, gens_capacity, party_capacity).unwrap(),
        }
    }

    /// Creates a new `BulletproofGens` object, if the hash has enough blocks
    /// that are mapped to elements.
    pub fn try_new(gens_capacity: usize, party_capacity: usize) -> (r: Option<Self>)
        ensures
            r is Some <==> can_generate::<G>(gens_capacity as int, party_capacity as int),
            r matches Some(g) ==> {
                &&& g.wf()
                &&& g.gens_capacity == gens_capacity
                &&& g.party_capacity == party_capacity
                &&& are_generators::<G>(g.G_vec@, 71, gens_capacity as int, party_capacity as int)
                &&& are_generators::<G>(g.H_vec@, 72, gens_capacity as int, party_capacity as int)
            },
    {
        if party_generators::<G>(71, gens_capacity, party_capacity).is_some() && party_generators::<G>(
            72,
            gens_capacity,
            party_capacity,
        ).is_some() {
            Some(Self::new(gens_capacity, party_capacity))
        } else {
            None
        }
    }
}

/// The input from which the bases for Pedersen commitments are derived.
pub open spec fn pedersen_seed() -> Seq<u8> {
    chain_seed(encode_utf8("PedersenGens"@))
}

impl<G: HashToGroup> PedersenGens<G> {
    /// The bases are the first three generators of a chain.
    pub fn default() -> (r: Self)
        requires
            supplies::<G>(pedersen_seed(), 3),
        ensures
            G::index(r.B) == chain_generator::<G>(pedersen_seed(), 0),
            G::index(r.B_blinding) == chain_generator::<G>(pedersen_seed(), 1),
            G::index(r.F) == chain_generator::<G>(pedersen_seed(), 2),
    {
        let v = GeneratorsChain::<G>::new("PedersenGens".as_bytes()).take(3).unwrap();
        PedersenGens { B: v[0], B_blinding: v[1], F: v[2] }
    }

    /// The first three generators of a chain, if the hash has enough blocks
    /// that are mapped to elements.
    pub fn try_default() -> (r: Option<Self>)
        ensures
            r is Some <==> supplies::<G>(pedersen_seed(), 3),
            r matches Some(g) ==> {
                &&& G::index(g.B) == chain_generator::<G>(pedersen_seed(), 0)
                &&& G::index(g.B_blinding) == chain_generator::<G>(pedersen_seed(), 1)
                &&& G::index(g.F) == chain_generator::<G>(pedersen_seed(), 2)
            },
    {
        if GeneratorsChain::<G>::new("PedersenGens".as_bytes()).take(3).is_some() {
            Some(Self::default())
        } else {
            None
        }
    }
}

/// Generator `i` of party `j` is generator `i` of the chain whose input is a
/// fixed text, the kind and the number of the party in four bytes.
pub proof fn law_generators<G: HashToGroup>(
    vs: Seq<Vec<G::Point>>,
    kind: u8,
    n: int,
    parties: int,
    j: int,
    i: int,
    label: Seq<u8>,
)
    requires
        are_generators::<G>(vs, kind, n, parties),
        0 <= j < parties,
        j <= u32::MAX,
        j <= usize::MAX,
        0 <= i < n,
        label.len() == 5,
        label[0] == kind,
        le_value(label.skip(1)) == j,
    ensures
        vs.len() == parties,
        vs[j]@.len() == n,
        G::index(vs[j]@[i]) == chain_generator::<G>(encode_utf8("GeneratorsChain"@) + label, i),
{
    law_party_label(kind, j as usize, kind, j as usize);
    let own = party_label(kind, j as usize);
    lemma_le_bytes_of_value(label.skip(1));
    lemma_le_bytes_of_value(own.skip(1));
    assert(own =~= seq![own[0]] + own.skip(1));
    assert(label =~= seq![label[0]] + label.skip(1));
    assert(G::index(vs[j]@[i]) == chain_generator::<G>(chain_seed(own), i));
}

/// The bases for Pedersen commitments come from a chain of their own: no party
/// has generators from it.
pub proof fn law_pedersen_seed(kind: u8, party: usize)
    requires
        party <= u32::MAX,
    ensures
        pedersen_seed() == encode_utf8("GeneratorsChain"@) + encode_utf8("PedersenGens"@),
        pedersen_seed() != chain_seed(party_label(kind, party)),
{
    law_party_label(kind, party, kind, party);
    law_chain_seed(encode_utf8("PedersenGens"@), party_label(kind, party));
    reveal_strlit("PedersenGens");
    is_ascii_chars_encode_utf8("PedersenGens"@);
}

} // verus!
