//! Definition of the constraint system trait.

use vstd::arithmetic::power::{lemma_pow0, pow};
use vstd::prelude::*;
use crate::errors::R1CSError;
use crate::group::{Field, Group};
use crate::modular::{group_mod, lemma_md_small, lemma_pow_next, md, sub_mod};
use crate::r1cs::linear_combination::{LinearCombination, Terms, Variable};
use crate::r1cs::witness::{Witness, constrained, multiplied};
use crate::sums::sum;
use crate::transcript::{Log, challenge, challenged};

verus! {

broadcast use group_mod;

/// The variable is one of `n` multipliers, one of `m` inputs, or the constant.
pub open spec fn in_range(var: Variable, n: int, m: int) -> bool {
    match var {
        Variable::Committed(i) => i < m,
        Variable::MultiplierLeft(i) => i < n,
        Variable::MultiplierRight(i) => i < n,
        Variable::MultiplierOutput(i) => i < n,
        Variable::One() => true,
    }
}

/// All variables of a linear combination are in range.
pub open spec fn terms_in_range(t: Terms, n: int, m: int) -> bool {
    forall|i: int| 0 <= i < t.len() ==> in_range((#[trigger] t[i]).0, n, m)
}

/// All variables of all constraints are in range.
pub open spec fn constraints_in_range(cs: Seq<Terms>, n: int, m: int) -> bool {
    forall|i: int| 0 <= i < cs.len() ==> terms_in_range(#[trigger] cs[i], n, m)
}

/// The interface for a constraint system, abstracting over the prover
/// and verifier's roles.
pub trait ConstraintSystem<G: Group> {
    /// The generators and what is known of the inputs.
    type Setting;

    /// What no operation on the constraint system changes.
    spec fn setting(&self) -> Self::Setting;

    /// The constraints so far; each states that a linear combination is zero.
    spec fn constraints(&self) -> Seq<Terms>;

    /// The number of multiplication gates so far.
    spec fn multipliers(&self) -> nat;

    /// The number of inputs.
    spec fn inputs(&self) -> nat;

    /// The values of the variables, if the role has them.
    spec fn assigned(&self) -> Option<Witness>;

    /// The role holds as many values as there are variables.
    spec fn wf(&self) -> bool;

    /// The operations that the transcript has been through.
    spec fn log(&self) -> Log;

    /// The role has all that it needs to know of the variables in `t`.
    spec fn knows(&self, t: Terms) -> bool;

    /// The variables that there are suffice.
    proof fn knows_in_range(&self, t: Terms)
        requires
            self.wf(),
            terms_in_range(t, self.multipliers() as int, self.inputs() as int),
        ensures
            self.knows(t),
    ;

    /// Allocates a multiplier and constrains its inputs to `left` and `right`.
    /// Returns the variables for its left input, right input and output.
    fn multiply(
        &mut self,
        left: LinearCombination<G::Scalar>,
        right: LinearCombination<G::Scalar>,
    ) -> (r: (Variable, Variable, Variable))
        requires
            old(self).multipliers() < usize::MAX,
            old(self).knows(left@),
            old(self).knows(right@),
        ensures
            ({
                let n = old(self).multipliers() as usize;
                let minus_one = sub_mod(0, 1, G::Scalar::modulus());
                &&& r == (
                    Variable::MultiplierLeft(n),
                    Variable::MultiplierRight(n),
                    Variable::MultiplierOutput(n),
                )
                &&& final(self).constraints() == old(self).constraints().push(
                    left@.push((Variable::MultiplierLeft(n), minus_one)),
                ).push(right@.push((Variable::MultiplierRight(n), minus_one)))
            }),
            final(self).multipliers() == old(self).multipliers() + 1,
            final(self).log() == old(self).log(),
            final(self).wf(),
            final(self).setting() == old(self).setting(),
            final(self).inputs() == old(self).inputs(),
            final(self).assigned() == match old(self).assigned() {
                Some(w) => Some(multiplied(w, left@, right@, G::Scalar::modulus())),
                None => None,
            },
    ;

    /// Allocates a multiplication gate whose values `assign_fn` gives to the
    /// prover.
    fn allocate<F: FnOnce() -> Result<(G::Scalar, G::Scalar, G::Scalar), R1CSError>>(
        &mut self,
        assign_fn: F,
    ) -> (r: Result<(Variable, Variable, Variable), R1CSError>)
        requires
            old(self).multipliers() < usize::MAX,
            old(self).assigned() is Some ==> assign_fn.requires(()),
        ensures
            r matches Ok(vars) ==> {
                let n = old(self).multipliers() as usize;
                &&& vars == (
                    Variable::MultiplierLeft(n),
                    Variable::MultiplierRight(n),
                    Variable::MultiplierOutput(n),
                )
                &&& final(self).multipliers() == old(self).multipliers() + 1
            },
            r matches Err(e) ==> {
                &&& assign_fn.ensures((), Err(e))
                &&& final(self).multipliers() == old(self).multipliers()
            },
            final(self).constraints() == old(self).constraints(),
            final(self).log() == old(self).log(),
            old(self).wf() ==> final(self).wf(),
            final(self).setting() == old(self).setting(),
            final(self).inputs() == old(self).inputs(),
            r is Err ==> final(self).assigned() == old(self).assigned(),
    ;

    /// Enforces that the linear combination is zero.
    fn constrain(&mut self, lc: LinearCombination<G::Scalar>)
        ensures
            final(self).constraints() == old(self).constraints().push(lc@),
            final(self).multipliers() == old(self).multipliers(),
            final(self).log() == old(self).log(),
            old(self).wf() ==> final(self).wf(),
            final(self).setting() == old(self).setting(),
            final(self).inputs() == old(self).inputs(),
            final(self).assigned() == match old(self).assigned() {
                Some(w) => Some(constrained(w, lc@)),
                None => None,
            },
    ;

    /// Obtains a challenge scalar bound to the commitments so far.
    fn challenge_scalar(&mut self, label: &'static str) -> (r: G::Scalar)
        ensures
            r.value() == challenge::<G::Scalar>(old(self).log(), label@),
            final(self).log() == challenged(old(self).log(), label@),
            final(self).constraints() == old(self).constraints(),
            final(self).multipliers() == old(self).multipliers(),
            old(self).wf() ==> final(self).wf(),
            final(self).setting() == old(self).setting(),
            final(self).inputs() == old(self).inputs(),
            final(self).assigned() == old(self).assigned(),
    ;
}

// ---------------------------------------------------------------------------
// Flattening of constraints
// ---------------------------------------------------------------------------

/// The coefficient of a variable in a linear combination.
pub open spec fn coefficient(t: Terms, var: Variable) -> int {
    sum(t.len() as int, |i: int| term_part(t, i, var))
}

/// The part that term `i` contributes to the coefficient of a variable.
pub open spec fn term_part(t: Terms, i: int, var: Variable) -> int {
    if t[i].0 == var {
        t[i].1
    } else {
        0
    }
}

/// The coefficient of a variable in the sum of all constraints, of which the
/// `c`th is multiplied by `z^(c + 1)`.
pub open spec fn weight(cs: Seq<Terms>, z: int, var: Variable) -> int {
    sum(cs.len() as int, |c: int| pow(z, (c + 1) as nat) * coefficient(cs[c], var))
}

/// The weight from the first `c` constraints and the first `t` terms of the
/// next one.
spec fn partial(cs: Seq<Terms>, z: int, var: Variable, c: int, t: int) -> int {
    sum(c, |x: int| pow(z, (x + 1) as nat) * coefficient(cs[x], var)) + pow(z, (c + 1) as nat) * sum(
        t,
        |i: int| term_part(cs[c], i, var),
    )
}

proof fn lemma_partial_term(cs: Seq<Terms>, z: int, var: Variable, c: int, t: int)
    requires
        0 <= c < cs.len(),
        0 <= t < cs[c].len(),
    ensures
        partial(cs, z, var, c, t + 1) == partial(cs, z, var, c, t) + pow(z, (c + 1) as nat) * term_part(
            cs[c],
            t,
            var,
        ),
        cs[c][t].0 != var ==> partial(cs, z, var, c, t + 1) == partial(cs, z, var, c, t),
{
    let f = |i: int| term_part(cs[c], i, var);
    let (p, s, x) = (pow(z, (c + 1) as nat), sum(t, f), f(t));
    assert(p * (s + x) == p * s + p * x) by (nonlinear_arith);
    assert(p * 0 == 0);
}

proof fn lemma_partial_next(cs: Seq<Terms>, z: int, var: Variable, c: int)
    requires
        0 <= c < cs.len(),
    ensures
        partial(cs, z, var, c + 1, 0) == partial(cs, z, var, c, cs[c].len() as int),
{
    let f = |x: int| pow(z, (x + 1) as nat) * coefficient(cs[x], var);
    assert(sum(c + 1, f) == sum(c, f) + f(c));
    let p = pow(z, (c + 2) as nat);
    assert(p * 0 == 0);
}

proof fn lemma_partial_start(cs: Seq<Terms>, z: int, var: Variable)
    ensures
        partial(cs, z, var, 0, 0) == 0,
{
    let p = pow(z, 1);
    assert(p * 0 == 0);
}

proof fn lemma_partial_end(cs: Seq<Terms>, z: int, var: Variable)
    ensures
        partial(cs, z, var, cs.len() as int, 0) == weight(cs, z, var),
{
    let p = pow(z, (cs.len() + 1) as nat);
    assert(p * 0 == 0);
}

/// The terms of a list of linear combinations.
pub open spec fn all_terms<F: Field>(lcs: Seq<LinearCombination<F>>) -> Seq<Terms> {
    Seq::new(lcs.len(), |i: int| lcs[i]@)
}

/// Adds up all constraints, the `c`th of them multiplied by `z^(c + 1)`.
///
/// Returns the weights of the left, right and output variables of the
/// multipliers, and the negated weights of the inputs and of the constant.
pub(crate) fn flatten<F: Field>(lcs: &Vec<LinearCombination<F>>, n: usize, m: usize, z: &F) -> (r: (
    Vec<F>,
    Vec<F>,
    Vec<F>,
    Vec<F>,
    F,
))
    requires
        constraints_in_range(all_terms(lcs@), n as int, m as int),
    ensures
        r.0@.len() == n,
        r.1@.len() == n,
        r.2@.len() == n,
        r.3@.len() == m,
        forall|i: int|
            0 <= i < n ==> (#[trigger] r.0@[i]).value() == md(
                weight(all_terms(lcs@), z.value(), Variable::MultiplierLeft(i as usize)),
                F::modulus(),
            ),
        forall|i: int|
            0 <= i < n ==> (#[trigger] r.1@[i]).value() == md(
                weight(all_terms(lcs@), z.value(), Variable::MultiplierRight(i as usize)),
                F::modulus(),
            ),
        forall|i: int|
            0 <= i < n ==> (#[trigger] r.2@[i]).value() == md(
                weight(all_terms(lcs@), z.value(), Variable::MultiplierOutput(i as usize)),
                F::modulus(),
            ),
        forall|i: int|
            0 <= i < m ==> (#[trigger] r.3@[i]).value() == md(
                -weight(all_terms(lcs@), z.value(), Variable::Committed(i as usize)),
                F::modulus(),
            ),
        r.4.value() == md(-weight(all_terms(lcs@), z.value(), Variable::One()), F::modulus()),
{
    let ghost q = F::modulus();
    let ghost cs = all_terms(lcs@);
    let ghost zv = z.value();
    let mut wL: Vec<F> = crate::util::zero_vec(n);
    let mut wR: Vec<F> = crate::util::zero_vec(n);
    let mut wO: Vec<F> = crate::util::zero_vec(n);
    let mut wV: Vec<F> = crate::util::zero_vec(m);
    let mut wc = F::zero();
    let mut exp_z = *z;
    proof {
        F::modulus_range();
        lemma_md_small(0, q);
        z.value_range();
        lemma_pow0(zv);
        lemma_pow_next(zv, 0);
        assert forall|var: Variable| #[trigger] partial(cs, zv, var, 0, 0) == 0 by {
            lemma_partial_start(cs, zv, var);
        }
    }
    let mut c: usize = 0;
    while c < lcs.len()
        invariant
            c <= lcs@.len(),
            q == F::modulus(),
            q > 1,
            cs == all_terms(lcs@),
            zv == z.value(),
            constraints_in_range(cs, n as int, m as int),
            exp_z.value() == md(pow(zv, (c + 1) as nat), q),
            wL@.len() == n,
            wR@.len() == n,
            wO@.len() == n,
            wV@.len() == m,
            forall|i: int|
                0 <= i < n ==> (#[trigger] wL@[i]).value() == md(
                    partial(cs, zv, Variable::MultiplierLeft(i as usize), c as int, 0),
                    q,
                ),
            forall|i: int|
                0 <= i < n ==> (#[trigger] wR@[i]).value() == md(
                    partial(cs, zv, Variable::MultiplierRight(i as usize), c as int, 0),
                    q,
                ),
            forall|i: int|
                0 <= i < n ==> (#[trigger] wO@[i]).value() == md(
                    partial(cs, zv, Variable::MultiplierOutput(i as usize), c as int, 0),
                    q,
                ),
            forall|i: int|
                0 <= i < m ==> (#[trigger] wV@[i]).value() == md(
                    -partial(cs, zv, Variable::Committed(i as usize), c as int, 0),
                    q,
                ),
            wc.value() == md(-partial(cs, zv, Variable::One(), c as int, 0), q),
        decreases lcs@.len() - c,
    {
        let lc = &lcs[c];
        assert(cs[c as int] == lc@);
        assert(terms_in_range(cs[c as int], n as int, m as int));
        let mut t: usize = 0;
        while t < lc.terms.len()
            invariant
                c < lcs@.len(),
                t <= lc.terms@.len(),
                q == F::modulus(),
                q > 1,
                cs == all_terms(lcs@),
                zv == z.value(),
                cs[c as int] == lc@,
                terms_in_range(lc@, n as int, m as int),
                exp_z.value() == md(pow(zv, (c + 1) as nat), q),
                wL@.len() == n,
                wR@.len() == n,
                wO@.len() == n,
                wV@.len() == m,
                forall|i: int|
                    0 <= i < n ==> (#[trigger] wL@[i]).value() == md(
                        partial(cs, zv, Variable::MultiplierLeft(i as usize), c as int, t as int),
                        q,
                    ),
                forall|i: int|
                    0 <= i < n ==> (#[trigger] wR@[i]).value() == md(
                        partial(cs, zv, Variable::MultiplierRight(i as usize), c as int, t as int),
                        q,
                    ),
                forall|i: int|
                    0 <= i < n ==> (#[trigger] wO@[i]).value() == md(
                        partial(cs, zv, Variable::MultiplierOutput(i as usize), c as int, t as int),
                        q,
                    ),
                forall|i: int|
                    0 <= i < m ==> (#[trigger] wV@[i]).value() == md(
                        -partial(cs, zv, Variable::Committed(i as usize), c as int, t as int),
                        q,
                    ),
                wc.value() == md(-partial(cs, zv, Variable::One(), c as int, t as int), q),
            decreases lc.terms@.len() - t,
        {
            let (var, coeff) = lc.terms[t];
            proof {
                coeff.value_range();
                assert(lc@[t as int] == (var, coeff.value()));
                assert(in_range(lc@[t as int].0, n as int, m as int));
                assert forall|v: Variable| true implies ({
                    &&& v == var ==> #[trigger] partial(cs, zv, v, c as int, t + 1) == partial(
                        cs,
                        zv,
                        v,
                        c as int,
                        t as int,
                    ) + pow(zv, (c + 1) as nat) * coeff.value()
                    &&& v != var ==> partial(cs, zv, v, c as int, t + 1) == partial(
                        cs,
                        zv,
                        v,
                        c as int,
                        t as int,
                    )
                }) by {
                    lemma_partial_term(cs, zv, v, c as int, t as int);
                }
            }
            let x = exp_z.times(coeff);
            match var {
                Variable::MultiplierLeft(i) => {
                    let e = wL[i].plus(x);
                    wL.set(i, e);
                },
                Variable::MultiplierRight(i) => {
                    let e = wR[i].plus(x);
                    wR.set(i, e);
                },
                Variable::MultiplierOutput(i) => {
                    let e = wO[i].plus(x);
                    wO.set(i, e);
                },
                Variable::Committed(i) => {
                    let e = wV[i].minus(x);
                    wV.set(i, e);
                },
                Variable::One() => {
                    wc = wc.minus(x);
                },
            }
            t += 1;
        }
        exp_z = exp_z.times(*z);
        proof {
            z.value_range();
            lemma_pow_next(zv, c + 1);
            assert forall|v: Variable| #[trigger] partial(cs, zv, v, c + 1, 0) == partial(
                cs,
                zv,
                v,
                c as int,
                lc@.len() as int,
            ) by {
                lemma_partial_next(cs, zv, v, c as int);
            }
        }
        c += 1;
    }
    proof {
        assert forall|v: Variable| #[trigger] partial(cs, zv, v, c as int, 0) == weight(cs, zv, v) by {
            lemma_partial_end(cs, zv, v);
        }
    }
    (wL, wR, wO, wV, wc)
}

} // verus!
