//! The generators that commitments are made with.

use vstd::prelude::*;
use crate::folding::lemma_block_index;
use crate::group::{Field, Group, indices};
use crate::modular::{eqm, group_mod, lemma_eqm_add, lemma_eqm_mul, lemma_md_range, lemma_md_small, md};

verus! {

broadcast use group_mod;

/// A group whose elements can be found by hashing.
pub trait HashToGroup: Group {
    /// The index of the element that 64 bytes are mapped to, if they are
    /// mapped to one.
    spec fn hashed(bytes: Seq<u8>) -> Option<int>;

    /// Maps 64 bytes to an element, if they are mapped to one.
    fn try_from_uniform_bytes(bytes: &[u8; 64]) -> (r: Option<Self::Point>)
        ensures
            r is Some <==> Self::hashed(bytes@) is Some,
            r matches Some(p) ==> Self::hashed(bytes@) == Some(Self::index(p)),
    ;
}

/// Represents a triple of base points for Pedersen commitments.
///
/// `B` is the base for the committed value, `B_blinding` the base for the
/// blinding factor, and `F` the public key under which the committed
/// ciphertexts are encrypted.
#[derive(Copy, Clone)]
pub struct PedersenGens<G: Group> {
    /// Base for the committed value.
    pub B: G::Point,
    /// Base for the blinding factor.
    pub B_blinding: G::Point,
    /// Base for the second half of a ciphertext.
    pub F: G::Point,
}

impl<G: Group> PedersenGens<G> {
    /// The index of a commitment to `value` with the given blinding factor.
    pub open spec fn commitment(self, value: int, blinding: int) -> int {
        md(G::index(self.B) * value + G::index(self.B_blinding) * blinding, G::Scalar::modulus())
    }

    /// Creates a Pedersen commitment using the value scalar and a blinding
    /// factor.
    pub fn commit(&self, value: G::Scalar, blinding: G::Scalar) -> (r: G::Point)
        ensures
            G::index(r) == self.commitment(value.value(), blinding.value()),
    {
        proof {
            G::Scalar::modulus_range();
            G::index_range(self.B);
            G::index_range(self.B_blinding);
            value.value_range();
            blinding.value_range();
        }
        G::plus(G::times(self.B, value), G::times(self.B_blinding, blinding))
    }
}

/// Commitments add up: the sum of two is a commitment to the sum of the
/// values, with the sum of the blinding factors.
pub proof fn law_commitment_add<G: Group>(gens: PedersenGens<G>, v: int, b: int, w: int, c: int)
    ensures
        md(gens.commitment(v, b) + gens.commitment(w, c), G::Scalar::modulus()) == gens.commitment(v + w, b + c),
{
    let q = G::Scalar::modulus();
    G::Scalar::modulus_range();
    let (x, y) = (G::index(gens.B), G::index(gens.B_blinding));
    lemma_md_range(x * v + y * b, q);
    lemma_md_range(x * w + y * c, q);
    lemma_eqm_add(gens.commitment(v, b), x * v + y * b, gens.commitment(w, c), x * w + y * c, q);
    assert(x * v + y * b + (x * w + y * c) == x * (v + w) + y * (b + c)) by (nonlinear_arith);
}

/// A multiple of a commitment is a commitment to the multiple of the value,
/// with the multiple of the blinding factor.
pub proof fn law_commitment_scale<G: Group>(gens: PedersenGens<G>, v: int, b: int, s: int)
    ensures
        md(gens.commitment(v, b) * s, G::Scalar::modulus()) == gens.commitment(v * s, b * s),
{
    let q = G::Scalar::modulus();
    G::Scalar::modulus_range();
    let (x, y) = (G::index(gens.B), G::index(gens.B_blinding));
    lemma_md_range(x * v + y * b, q);
    lemma_eqm_mul(gens.commitment(v, b), x * v + y * b, s, s, q);
    assert((x * v + y * b) * s == x * (v * s) + y * (b * s)) by (nonlinear_arith);
}

/// A commitment to one without blinding is the first base, one to zero with the
/// blinding factor one is the second.
///
/// With the two laws above, this determines every commitment, and no blinding
/// factor but zero leaves a commitment as it is.
pub proof fn law_commitment_units<G: Group>(gens: PedersenGens<G>, v: int, b: int)
    ensures
        gens.commitment(1, 0) == G::index(gens.B),
        gens.commitment(0, 1) == G::index(gens.B_blinding),
        gens.commitment(0, 0) == 0,
        eqm(
            gens.commitment(v, b),
            v * gens.commitment(1, 0) + b * gens.commitment(0, 1),
            G::Scalar::modulus(),
        ),
{
    let q = G::Scalar::modulus();
    G::Scalar::modulus_range();
    G::index_range(gens.B);
    G::index_range(gens.B_blinding);
    let (x, y) = (G::index(gens.B), G::index(gens.B_blinding));
    assert(x * 1 + y * 0 == x && x * 0 + y * 1 == y && x * 0 + y * 0 == 0) by (nonlinear_arith);
    lemma_md_small(x, q);
    lemma_md_small(y, q);
    lemma_md_small(0, q);
    lemma_md_range(x * v + y * b, q);
    assert(x * v + y * b == v * x + b * y) by (nonlinear_arith);
}

/// The generators of a number of parties.
#[derive(Clone)]
pub struct BulletproofGens<G: Group> {
    /// The maximum number of usable generators for each party.
    pub gens_capacity: usize,
    /// Number of values or parties.
    pub party_capacity: usize,
    /// Precomputed `G` generators for each party.
    pub G_vec: Vec<Vec<G::Point>>,
    /// Precomputed `H` generators for each party.
    pub H_vec: Vec<Vec<G::Point>>,
}

/// The first `n` entries of the first `m` of `vs`, one after the other.
pub open spec fn aggregated<P>(vs: Seq<Vec<P>>, n: int, m: int) -> Seq<P> {
    Seq::new((n * m) as nat, |t: int| vs[t / n]@[t % n])
}

/// Collects the first `n` entries of the first `m` of `vs`.
fn aggregate<P: Copy>(vs: &Vec<Vec<P>>, n: usize, m: usize) -> (r: Vec<P>)
    requires
        m <= vs@.len(),
        forall|j: int| 0 <= j < m ==> n <= (#[trigger] vs@[j])@.len(),
    ensures
        r@ == aggregated(vs@, n as int, m as int),
{
    let mut out: Vec<P> = Vec::new();
    let mut j: usize = 0;
    while j < m
        invariant
            j <= m <= vs@.len(),
            forall|j: int| 0 <= j < m ==> n <= (#[trigger] vs@[j])@.len(),
            out@.len() == j * n,
            forall|t: int| 0 <= t < out@.len() ==> #[trigger] out@[t] == vs@[t / n as int]@[t % n as int],
        decreases m - j,
    {
        let mut i: usize = 0;
        while i < n
            invariant
                j < m <= vs@.len(),
                i <= n,
                forall|j: int| 0 <= j < m ==> n <= (#[trigger] vs@[j])@.len(),
                out@.len() == j * n + i,
                forall|t: int| 0 <= t < out@.len() ==> #[trigger] out@[t] == vs@[t / n as int]@[t % n as int],
            decreases n - i,
        {
            assert(n <= vs@[j as int]@.len());
            out.push(vs[j][i]);
            proof {
                vstd::arithmetic::div_mod::lemma_fundamental_div_mod_converse(
                    j * n + i,
                    n as int,
                    j as int,
                    i as int,
                );
            }
            i += 1;
        }
        proof {
            assert((j + 1) * n == j * n + n) by (nonlinear_arith);
        }
        j += 1;
    }
    proof {
        assert(m * n == n * m) by (nonlinear_arith);
        assert(out@ =~= aggregated(vs@, n as int, m as int));
    }
    out
}

impl<G: Group> BulletproofGens<G> {
    /// There are `gens_capacity` generators of either kind for each of
    /// `party_capacity` parties.
    pub open spec fn wf(self) -> bool {
        &&& self.G_vec@.len() == self.party_capacity
        &&& self.H_vec@.len() == self.party_capacity
        &&& forall|j: int| 0 <= j < self.party_capacity ==> (#[trigger] self.G_vec@[j])@.len() == self.gens_capacity
        &&& forall|j: int| 0 <= j < self.party_capacity ==> (#[trigger] self.H_vec@[j])@.len() == self.gens_capacity
    }

    /// Returns the `j`-th share of the generators.
    pub fn share(&self, j: usize) -> (r: BulletproofGensShare<'_, G>)
        requires
            j < self.G_vec@.len(),
            j < self.H_vec@.len(),
        ensures
            *r.gens == *self,
            r.share == j,
    {
        BulletproofGensShare { gens: self, share: j }
    }

    /// The aggregation of the first `m` parties' `G` generators with given
    /// size `n`.
    pub fn G(&self, n: usize, m: usize) -> (r: Vec<G::Point>)
        requires
            m <= self.G_vec@.len(),
            forall|j: int| 0 <= j < m ==> n <= (#[trigger] self.G_vec@[j])@.len(),
        ensures
            r@ == aggregated(self.G_vec@, n as int, m as int),
    {
        aggregate(&self.G_vec, n, m)
    }

    /// The aggregation of the first `m` parties' `H` generators with given
    /// size `n`.
    pub fn H(&self, n: usize, m: usize) -> (r: Vec<G::Point>)
        requires
            m <= self.H_vec@.len(),
            forall|j: int| 0 <= j < m ==> n <= (#[trigger] self.H_vec@[j])@.len(),
        ensures
            r@ == aggregated(self.H_vec@, n as int, m as int),
    {
        aggregate(&self.H_vec, n, m)
    }
}

/// The aggregated generators hold, party after party, the first generators
/// of each party.
pub proof fn law_aggregated<P>(vs: Seq<Vec<P>>, n: int, m: int, j: int, i: int)
    requires
        0 <= j < m <= vs.len(),
        0 <= i < n,
    ensures
        aggregated(vs, n, m).len() == n * m,
        0 <= j * n + i < n * m,
        aggregated(vs, n, m)[j * n + i] == vs[j]@[i],
{
    lemma_block_index(j, i, m, n);
    assert(m * n == n * m) by (nonlinear_arith);
    vstd::arithmetic::div_mod::lemma_fundamental_div_mod_converse(j * n + i, n, j, i);
}

/// Represents a view of the generators used by a specific party.
#[derive(Copy, Clone)]
pub struct BulletproofGensShare<'a, G: Group> {
    /// The parent object that this is a view into.
    pub gens: &'a BulletproofGens<G>,
    /// Which share we are.
    pub share: usize,
}

/// The first `n` entries of `v`, or all of them if there are fewer.
fn prefix<P: Copy>(v: &Vec<P>, n: usize) -> (r: Vec<P>)
    ensures
        r@ == v@.take(if n <= v@.len() { n as int } else { v@.len() as int }),
{
    let mut out: Vec<P> = Vec::new();
    let mut i: usize = 0;
    while i < n && i < v.len()
        invariant
            i <= n,
            i <= v@.len(),
            out@ == v@.take(i as int),
        decreases n - i,
    {
        out.push(v[i]);
        i += 1;
        assert(v@.take(i as int) =~= v@.take(i - 1).push(v@[i - 1]));
    }
    out
}

impl<'a, G: Group> BulletproofGensShare<'a, G> {
    /// This party's `G` generators with given size `n`, or all if there are
    /// fewer.
    pub fn G(&self, n: usize) -> (r: Vec<G::Point>)
        requires
            self.share < self.gens.G_vec@.len(),
        ensures
            ({
                let v = self.gens.G_vec@[self.share as int]@;
                r@ == v.take(if n <= v.len() { n as int } else { v.len() as int })
            }),
    {
        prefix(&self.gens.G_vec[self.share], n)
    }

    /// This party's `H` generators with given size `n`, or all if there are
    /// fewer.
    pub fn H(&self, n: usize) -> (r: Vec<G::Point>)
        requires
            self.share < self.gens.H_vec@.len(),
        ensures
            ({
                let v = self.gens.H_vec@[self.share as int]@;
                r@ == v.take(if n <= v.len() { n as int } else { v.len() as int })
            }),
    {
        prefix(&self.gens.H_vec[self.share], n)
    }
}

/// The generators that a proof refers to, by their indices.
pub struct GensView {
    pub g: Seq<int>,
    pub h: Seq<int>,
    pub b: int,
    pub b_blinding: int,
    pub f: int,
}

/// The generators of the first party, with the bases for Pedersen commitments.
pub open spec fn gens_view<G: Group>(bp: BulletproofGens<G>, pc: PedersenGens<G>) -> GensView {
    GensView {
        g: indices::<G>(bp.G_vec@[0]@),
        h: indices::<G>(bp.H_vec@[0]@),
        b: G::index(pc.B),
        b_blinding: G::index(pc.B_blinding),
        f: G::index(pc.F),
    }
}

/// A proof refers to the generators of the first party and to the three bases
/// for commitments, each in its own role.
pub proof fn law_gens_view<G: Group>(bp: BulletproofGens<G>, pc: PedersenGens<G>)
    ensures
        gens_view(bp, pc).g.len() == bp.G_vec@[0]@.len(),
        gens_view(bp, pc).h.len() == bp.H_vec@[0]@.len(),
        forall|i: int|
            0 <= i < bp.G_vec@[0]@.len() ==> #[trigger] gens_view(bp, pc).g[i] == G::index(bp.G_vec@[0]@[i]),
        forall|i: int|
            0 <= i < bp.H_vec@[0]@.len() ==> #[trigger] gens_view(bp, pc).h[i] == G::index(bp.H_vec@[0]@[i]),
        gens_view(bp, pc).b == G::index(pc.B),
        gens_view(bp, pc).b_blinding == G::index(pc.B_blinding),
        gens_view(bp, pc).f == G::index(pc.F),
{
}

} // verus!
