//! Proving and verifying constraint systems over P-256.

use ark_ff::PrimeField;
use vstd::prelude::*;
use crate::errors::R1CSError;
use crate::generators::gens_view;
use crate::group::{Field, Group, encodes, indices, values};
use crate::modular::md;
use crate::p256::curve::Projective;
use crate::p256::field::{Fr, limb_value, order};
use crate::r1cs::honest::{Blindings, Ciphertexts, honest};
use crate::r1cs::linear_combination::Variable;
use crate::r1cs::prove::{Prover, ProverBlindings, ProverCS};
use crate::r1cs::r1cs_proof::R1CSProof;
use crate::r1cs::verify::{Verifier, VerifierCS, verified_log};
use crate::sums::dot;
use crate::transcript::{append, transcript_log};

verus! {

/// `ark_std::test_rng` makes a generator of random numbers, from which
/// `UniformRand::rand` draws `n` elements of `ark_secp256r1::Fr`.
#[verifier::external_body]
fn random_limbs(n: usize) -> (r: Vec<[u64; 4]>)
    ensures
        r@.len() == n,
        forall|i: int| 0 <= i < n ==> limb_value((#[trigger] r@[i])@) < order(),
{
    let mut rng = ark_std::test_rng();
    (0..n).map(|_| <ark_secp256r1::Fr as ark_std::UniformRand>::rand(&mut rng).into_bigint().0).collect()
}

/// What a function returns when it is asked for `n` elements.
fn ask<A: FnOnce(usize) -> Vec<[u64; 4]>>(source: A, n: usize) -> (r: Vec<[u64; 4]>)
    requires
        call_requires(source, (n,)),
    ensures
        call_ensures(source, (n,), r),
{
    source(n)
}

/// The generator that arkworks has for tests can have given these elements, one
/// after the other.
pub closed spec fn drawn(s: Seq<int>) -> bool {
    exists|v: Vec<[u64; 4]>| #[trigger]
        call_ensures(random_limbs, (s.len() as usize,), v) && s == Seq::new(
            v@.len(),
            |i: int| limb_value(v@[i]@),
        )
}

/// Drawn elements are residues, and come out of the generator.
proof fn law_drawn(s: Seq<int>)
    requires
        drawn(s),
        s.len() <= usize::MAX,
    ensures
        exists|v: Vec<[u64; 4]>| #[trigger]
            call_ensures(random_limbs, (s.len() as usize,), v) && s == Seq::new(
                v@.len(),
                |i: int| limb_value(v@[i]@),
            ),
        forall|i: int| 0 <= i < s.len() ==> #[trigger] s[i] < order(),
{
}

/// Draws `n` scalars.
fn random_scalars(n: usize) -> (r: Vec<Fr>)
    ensures
        r@.len() == n,
        drawn(values(r@)),
{
    let limbs = ask(random_limbs, n);
    let mut out: Vec<Fr> = Vec::new();
    let mut i: usize = 0;
    while i < n
        invariant
            i <= n,
            limbs@.len() == n,
            forall|t: int| 0 <= t < n ==> limb_value((#[trigger] limbs@[t])@) < order(),
            out@.len() == i,
            forall|t: int| 0 <= t < i ==> (#[trigger] out@[t]).value() == limb_value(limbs@[t]@),
        decreases n - i,
    {
        let l = limbs[i];
        out.push(Fr::of(l));
        i += 1;
    }
    proof {
        assert(values(out@).len() as usize == n);
        assert(call_ensures(random_limbs, (values(out@).len() as usize,), limbs));
        assert(values(out@) =~= Seq::new(limbs@.len(), |i: int| limb_value(limbs@[i]@)));
    }
    out
}

/// The `n` scalars of `s` from number `from` on.
fn part(s: &Vec<Fr>, from: usize, n: usize) -> (r: Vec<Fr>)
    requires
        from + n <= s@.len(),
    ensures
        r@ == s@.subrange(from as int, from + n),
{
    let m: usize = s.len();
    let mut out: Vec<Fr> = Vec::new();
    let mut i: usize = 0;
    while i < n
        invariant
            i <= n,
            m == s@.len(),
            from + n <= m,
            out@ == s@.subrange(from as int, from + i),
        decreases n - i,
    {
        out.push(s[from + i]);
        i += 1;
        assert(s@.subrange(from as int, from + i) =~= s@.subrange(from as int, from + i - 1).push(
            s@[from + i - 1],
        ));
    }
    out
}

/// The random scalars of a prover with `n` multipliers and `k` ciphertexts,
/// where `s` holds them in the order in which they are drawn.
pub open spec fn blindings_of(s: Seq<int>, n: nat, k: nat) -> Blindings {
    let (n, k) = (n as int, k as int);
    let t = 3 + 2 * n;
    Blindings {
        i_blinding: s[0],
        o_blinding: s[1],
        s_blinding: s[2],
        s_L: s.subrange(3, 3 + n),
        s_R: s.subrange(3 + n, t),
        t_1_blinding: s[t],
        t_3_blinding: s[t + 1],
        t_4_blinding: s[t + 2],
        t_5_blinding: s[t + 3],
        t_6_blinding: s[t + 4],
        t_2_blinding: s[t + 5],
        s_prime_blinding: s[t + 6],
        rnd: s[t + 7],
        s_L_prime: s.subrange(t + 8, t + 8 + k),
        t_1_prime_blinding: s[t + 8 + k],
    }
}

/// The prover uses every scalar that it draws, in turn, and none of them twice.
pub proof fn law_blindings_of(s: Seq<int>, n: nat, k: nat)
    requires
        s.len() == 2 * n + k + 12,
    ensures
        blindings_of(s, n, k).s_L.len() == n,
        blindings_of(s, n, k).s_R.len() == n,
        blindings_of(s, n, k).s_L_prime.len() == k,
        ({
            let b = blindings_of(s, n, k);
            s == seq![b.i_blinding, b.o_blinding, b.s_blinding] + b.s_L + b.s_R + seq![
                b.t_1_blinding,
                b.t_3_blinding,
                b.t_4_blinding,
                b.t_5_blinding,
                b.t_6_blinding,
                b.t_2_blinding,
                b.s_prime_blinding,
                b.rnd,
            ] + b.s_L_prime + seq![b.t_1_prime_blinding]
        }),
{
    let b = blindings_of(s, n, k);
    let u = seq![b.i_blinding, b.o_blinding, b.s_blinding] + b.s_L + b.s_R + seq![
        b.t_1_blinding,
        b.t_3_blinding,
        b.t_4_blinding,
        b.t_5_blinding,
        b.t_6_blinding,
        b.t_2_blinding,
        b.s_prime_blinding,
        b.rnd,
    ] + b.s_L_prime + seq![b.t_1_prime_blinding];
    assert(u =~= s);
}

/// Hands out drawn scalars to a prover with `n` multipliers and `k`
/// ciphertexts, in the order in which they were drawn.
pub fn blindings_from(s: &Vec<Fr>, n: usize, k: usize) -> (r: ProverBlindings<Fr>)
    requires
        2 * n + k + 12 <= s@.len(),
    ensures
        r.fits(n as int, k as int),
        r@ == blindings_of(values(s@), n as nat, k as nat),
{
    let m: usize = s.len();
    assert(m == s@.len());
    let a: usize = 3 + 2 * n;
    let r = ProverBlindings {
        i_blinding: s[0],
        o_blinding: s[1],
        s_blinding: s[2],
        s_L: part(s, 3, n),
        s_R: part(s, 3 + n, n),
        t_1_blinding: s[a],
        t_3_blinding: s[a + 1],
        t_4_blinding: s[a + 2],
        t_5_blinding: s[a + 3],
        t_6_blinding: s[a + 4],
        t_2_blinding: s[a + 5],
        s_prime_blinding: s[a + 6],
        rnd: s[a + 7],
        s_L_prime: part(s, a + 8, k),
        t_1_prime_blinding: s[a + 8 + k],
    };
    proof {
        let b = blindings_of(values(s@), n as nat, k as nat);
        assert(r@.s_L =~= b.s_L);
        assert(r@.s_R =~= b.s_R);
        assert(r@.s_L_prime =~= b.s_L_prime);
    }
    r
}

impl<'a, 'b> Prover<'a, 'b, Projective> {
    /// Adds the inputs `v` and commits to them. The last of them fill up the
    /// `k_original` first ones.
    ///
    /// Returns the commitment and the variables that stand for the inputs.
    pub fn commit_vec(&mut self, v: &[Fr], v_blinding: Fr, k_original: usize) -> (r: (
        Vec<u8>,
        Vec<Variable>,
    ))
        requires
            old(self).wf(),
            old(self).cs.bp_gens.G_vec@.len() > 0,
            k_original <= v@.len(),
            v@.len() <= old(self).cs.bp_gens.G_vec@[0]@.len(),
            old(self).m + v@.len() <= usize::MAX,
        ensures
            final(self).wf(),
            final(self).cs.secrets.v@ == old(self).cs.secrets.v@ + v@,
            final(self).cs.secrets.v_blinding == v_blinding,
            final(self).cs.secrets.a_L == old(self).cs.secrets.a_L,
            final(self).cs.secrets.a_R == old(self).cs.secrets.a_R,
            final(self).cs.secrets.a_O == old(self).cs.secrets.a_O,
            final(self).cs.constraints == old(self).cs.constraints,
            final(self).cs.bp_gens == old(self).cs.bp_gens,
            final(self).cs.pc_gens == old(self).cs.pc_gens,
            encodes::<Projective>(
                r.0,
                md(
                    v_blinding.value() * Projective::index(old(self).cs.pc_gens.B_blinding) + dot(
                        values(v@),
                        indices::<Projective>(old(self).cs.bp_gens.G_vec@[0]@),
                    ),
                    order(),
                ),
            ),
            r.1@ == Seq::new(v@.len(), |i: int| Variable::Committed((old(self).m + i) as usize)),
            transcript_log(*final(self).cs.transcript) == append(
                transcript_log(*old(self).cs.transcript),
                "V"@,
                r.0@,
            ),
            *final(final(self).cs.transcript) == *final(old(self).cs.transcript),
    {
        assert(v@.take(v@.len() as int) =~= v@);
        self.commit_inputs(v, v_blinding, v.len())
    }
}

impl<'a, 'b> ProverCS<'a, 'b, Projective> {
    /// Consumes the constraint system and produces a proof.
    ///
    /// The random scalars come from the generator that arkworks has for tests.
    pub fn prove(
        self,
        C1_prime: &[Projective],
        C2_prime: &[Projective],
        r_prime: Fr,
        k_fold: usize,
        num_rounds: usize,
    ) -> (r: Result<R1CSProof<Projective>, R1CSError>)
        requires
            self.can_prove(
                C1_prime@.len() as int,
                C2_prime@.len() as int,
                k_fold as int,
                num_rounds as int,
            ),
            self.bp_gens.gens_capacity >= self.secrets.v@.len() ==> 2 * self.secrets.a_L@.len() + C1_prime@.len() + 12
                <= usize::MAX,
        ensures
            self.bp_gens.gens_capacity < self.secrets.v@.len() ==> {
                &&& r == Err::<R1CSProof<Projective>, R1CSError>(R1CSError::InvalidGeneratorsLength)
                &&& transcript_log(*final(self.transcript)) == transcript_log(*old(self.transcript))
            },
            self.bp_gens.gens_capacity >= self.secrets.v@.len() ==> r is Ok,
            r matches Ok(p) ==> {
                &&& exists|s: Seq<int>|
                    {
                        &&& s.len() == 2 * self.secrets.a_L@.len() + C1_prime@.len() + 12
                        &&& drawn(s)
                        &&& #[trigger] honest(
                            p,
                            self.witness(),
                            blindings_of(s, self.secrets.a_L@.len(), C1_prime@.len()),
                            gens_view(*self.bp_gens, *self.pc_gens),
                            Ciphertexts {
                                c1: indices::<Projective>(C1_prime@),
                                c2: indices::<Projective>(C2_prime@),
                                r_prime: r_prime.value(),
                            },
                            transcript_log(*old(self.transcript)),
                            k_fold as int,
                            num_rounds as int,
                        )
                    }
                &&& transcript_log(*final(self.transcript)) == p.log_end(
                    transcript_log(*old(self.transcript)),
                    self.secrets.v@.len() as int,
                )
            },
    {
        let short = self.bp_gens.gens_capacity < self.secrets.v.len();
        let (n, k): (usize, usize) = if short {
            (0, 0)
        } else {
            (self.secrets.a_L.len(), C1_prime.len())
        };
        let scalars = random_scalars(2 * n + k + 12);
        let blindings = blindings_from(&scalars, n, k);
        let r = self.prove_with(C1_prime, C2_prime, r_prime, k_fold, num_rounds, &blindings);
        assert(values(scalars@).len() == 2 * n + k + 12);
        r
    }
}

impl<'a, 'b> Verifier<'a, 'b, Projective> {
    /// Adds the commitment to `n` inputs.
    ///
    /// Returns the variables that stand for the inputs. The proof is about
    /// these inputs.
    pub fn commit_vec(&mut self, commitment: Vec<u8>, n: usize) -> (r: Vec<Variable>)
        requires
            commitment@.len() <= u32::MAX,
            old(self).m + n <= usize::MAX,
        ensures
            final(self).m == old(self).m + n,
            final(self).cs.num_inputs == n,
            final(self).cs.V@ == old(self).cs.V@.push(commitment),
            final(self).cs.num_vars == old(self).cs.num_vars,
            final(self).cs.constraints == old(self).cs.constraints,
            final(self).cs.bp_gens == old(self).cs.bp_gens,
            final(self).cs.pc_gens == old(self).cs.pc_gens,
            r@ == Seq::new(n as nat, |i: int| Variable::Committed((old(self).m + i) as usize)),
            transcript_log(*final(self).cs.transcript) == append(
                transcript_log(*old(self).cs.transcript),
                "V"@,
                commitment@,
            ),
            *final(final(self).cs.transcript) == *final(old(self).cs.transcript),
    {
        self.commit_inputs(commitment, n, n)
    }
}

impl<'a, 'b> VerifierCS<'a, 'b, Projective> {
    /// Consumes the constraint system and verifies the proof.
    ///
    /// The weight for the equations comes from the generator that arkworks has
    /// for tests.
    pub fn verify(
        self,
        proof: &R1CSProof<Projective>,
        C1_prime: &[Projective],
        C2_prime: &[Projective],
        C: &[Projective],
    ) -> (res: Result<(), R1CSError>)
        requires
            self.can_verify(
                *proof,
                C1_prime@.len() as int,
                C2_prime@.len() as int,
                C@.len() as int,
            ),
        ensures
            self.bp_gens.gens_capacity < self.num_inputs ==> {
                &&& res == Err::<(), R1CSError>(R1CSError::InvalidGeneratorsLength)
                &&& transcript_log(*final(self.transcript)) == transcript_log(*old(self.transcript))
            },
            self.bp_gens.gens_capacity >= self.num_inputs ==> {
                &&& exists|r: int|
                    drawn(seq![r]) && res == if #[trigger] self.accepts(
                        *proof,
                        C1_prime@,
                        C2_prime@,
                        C@,
                        transcript_log(*old(self.transcript)),
                        r,
                    ) {
                        Ok::<(), R1CSError>(())
                    } else {
                        Err(R1CSError::VerificationError)
                    }
                &&& transcript_log(*final(self.transcript)) == verified_log(
                    *proof,
                    transcript_log(*old(self.transcript)),
                    self.num_inputs as int,
                )
            },
    {
        let scalars = random_scalars(1);
        let r = scalars[0];
        assert(values(scalars@) =~= seq![r.value()]);
        self.verify_with(proof, C1_prime, C2_prime, C, r)
    }
}

} // verus!
