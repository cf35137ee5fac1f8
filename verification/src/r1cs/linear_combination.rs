//! Definition of linear combinations.

use std::ops::{Add, Mul, Neg, Sub};
use vstd::prelude::*;
use crate::group::Field;
use crate::modular::{eqm, group_mod, lemma_eqm_mul, lemma_eqm_sum, lemma_md_range, md, mul_mod, sub_mod};
use crate::sums::{lemma_sum_ext, lemma_sum_scale, lemma_sum_split, sum};

verus! {

broadcast use group_mod;

/// Represents a variable in a constraint system.
#[derive(Copy, Clone, Debug, PartialEq, Eq, Structural)]
pub enum Variable {
    /// Represents an external input specified by a commitment.
    Committed(usize),
    /// Represents the left input of a multiplication gate.
    MultiplierLeft(usize),
    /// Represents the right input of a multiplication gate.
    MultiplierRight(usize),
    /// Represents the output of a multiplication gate.
    MultiplierOutput(usize),
    /// Represents the constant 1.
    One(),
}

/// The terms of a linear combination: variables with their coefficients.
pub type Terms = Seq<(Variable, int)>;

/// Represents a linear combination of variables.
/// Each term is `(Variable, scalar_coefficient)`.
#[derive(Clone, Debug)]
pub struct LinearCombination<F: Field> {
    pub terms: Vec<(Variable, F)>,
}

/// The residues of a sequence of terms.
pub open spec fn terms_of<F: Field>(s: Seq<(Variable, F)>) -> Terms {
    Seq::new(s.len(), |i: int| (s[i].0, s[i].1.value()))
}

/// The terms with every coefficient multiplied by `c`.
pub open spec fn scale_terms(t: Terms, c: int, q: int) -> Terms {
    Seq::new(t.len(), |i: int| (t[i].0, mul_mod(t[i].1, c, q)))
}

/// The terms with every coefficient negated.
pub open spec fn negate_terms(t: Terms, q: int) -> Terms {
    Seq::new(t.len(), |i: int| (t[i].0, sub_mod(0, t[i].1, q)))
}

/// The value of a linear combination when the variables have the values that
/// `assignment` gives them.
pub open spec fn eval_terms(t: Terms, assignment: spec_fn(Variable) -> int) -> int {
    sum(t.len() as int, |i: int| t[i].1 * assignment(t[i].0))
}

impl<F: Field> LinearCombination<F> {
    pub open spec fn view(self) -> Terms {
        terms_of(self.terms@)
    }

    /// The linear combination with the given terms.
    pub fn from_terms(terms: Vec<(Variable, F)>) -> (r: Self)
        ensures
            r@ == terms_of(terms@),
    {
        LinearCombination { terms }
    }
}

impl<F: Field> Default for LinearCombination<F> {
    fn default() -> (r: Self)
        ensures
            r@ == Terms::empty(),
    {
        let r = LinearCombination { terms: Vec::new() };
        assert(r@ =~= Terms::empty());
        r
    }
}

impl<F: Field> vstd::std_specs::convert::FromSpecImpl<Variable> for LinearCombination<F> {
    open spec fn obeys_from_spec() -> bool {
        false
    }

    open spec fn from_spec(v: Variable) -> Self {
        choose|r: Self| r@ == seq![(v, 1int)]
    }
}

impl<F: Field> From<Variable> for LinearCombination<F> {
    fn from(v: Variable) -> (r: LinearCombination<F>)
        ensures
            r@ == seq![(v, 1int)],
    {
        let mut terms: Vec<(Variable, F)> = Vec::new();
        terms.push((v, F::one()));
        let r = LinearCombination { terms };
        assert(r@ =~= seq![(v, 1int)]);
        r
    }
}

impl<F: Field> vstd::std_specs::convert::FromSpecImpl<F> for LinearCombination<F> {
    open spec fn obeys_from_spec() -> bool {
        false
    }

    open spec fn from_spec(s: F) -> Self {
        choose|r: Self| r@ == seq![(Variable::One(), s.value())]
    }
}

impl<F: Field> From<F> for LinearCombination<F> {
    fn from(s: F) -> (r: LinearCombination<F>)
        ensures
            r@ == seq![(Variable::One(), s.value())],
    {
        let mut terms: Vec<(Variable, F)> = Vec::new();
        terms.push((Variable::One(), s));
        let r = LinearCombination { terms };
        assert(r@ =~= seq![(Variable::One(), s.value())]);
        r
    }
}

// The operators below say in their own `ensures` what they return; the spec
// functions of the operator traits only name some value with that view.

impl<F: Field> vstd::std_specs::ops::AddSpecImpl<Variable> for LinearCombination<F> {
    open spec fn obeys_add_spec() -> bool {
        false
    }

    open spec fn add_req(self, other: Variable) -> bool {
        true
    }

    open spec fn add_spec(self, other: Variable) -> Self {
        choose|r: Self| r@ == self@.push((other, 1int))
    }
}

impl<F: Field> Add<Variable> for LinearCombination<F> {
    type Output = LinearCombination<F>;

    fn add(self, other: Variable) -> (r: Self::Output)
        ensures
            r@ == self@.push((other, 1int)),
    {
        let mut r = self;
        r.terms.push((other, F::one()));
        assert(r@ =~= self@.push((other, 1int)));
        r
    }
}

impl<F: Field> vstd::std_specs::ops::AddSpecImpl for LinearCombination<F> {
    open spec fn obeys_add_spec() -> bool {
        false
    }

    open spec fn add_req(self, rhs: Self) -> bool {
        true
    }

    open spec fn add_spec(self, rhs: Self) -> Self {
        choose|r: Self| r@ == self@ + rhs@
    }
}

impl<F: Field> Add for LinearCombination<F> {
    type Output = Self;

    fn add(self, rhs: Self) -> (r: Self::Output)
        ensures
            r@ == self@ + rhs@,
    {
        let mut r = self;
        let mut i: usize = 0;
        while i < rhs.terms.len()
            invariant
                i <= rhs.terms@.len(),
                r.terms@ == self.terms@ + rhs.terms@.take(i as int),
            decreases rhs.terms@.len() - i,
        {
            r.terms.push(rhs.terms[i]);
            i += 1;
            assert(rhs.terms@.take(i as int) =~= rhs.terms@.take(i - 1).push(rhs.terms@[i - 1]));
        }
        assert(rhs.terms@.take(i as int) =~= rhs.terms@);
        assert(r@ =~= self@ + rhs@);
        r
    }
}

impl<F: Field> vstd::std_specs::ops::NegSpecImpl for LinearCombination<F> {
    open spec fn obeys_neg_spec() -> bool {
        false
    }

    open spec fn neg_req(self) -> bool {
        true
    }

    open spec fn neg_spec(self) -> Self {
        choose|r: Self| r@ == negate_terms(self@, F::modulus())
    }
}

impl<F: Field> Neg for LinearCombination<F> {
    type Output = Self;

    fn neg(self) -> (r: Self::Output)
        ensures
            r@ == negate_terms(self@, F::modulus()),
    {
        let mut terms: Vec<(Variable, F)> = Vec::new();
        let mut i: usize = 0;
        while i < self.terms.len()
            invariant
                i <= self.terms@.len(),
                terms@.len() == i,
                forall|j: int|
                    0 <= j < i ==> (#[trigger] terms@[j]).0 == self.terms@[j].0 && terms@[j].1.value() == sub_mod(
                        0,
                        self.terms@[j].1.value(),
                        F::modulus(),
                    ),
            decreases self.terms@.len() - i,
        {
            let (var, coeff) = self.terms[i];
            terms.push((var, coeff.negate()));
            i += 1;
        }
        let r = LinearCombination { terms };
        assert(r@ =~= negate_terms(self@, F::modulus()));
        r
    }
}

impl<F: Field> vstd::std_specs::ops::SubSpecImpl for LinearCombination<F> {
    open spec fn obeys_sub_spec() -> bool {
        false
    }

    open spec fn sub_req(self, rhs: Self) -> bool {
        true
    }

    open spec fn sub_spec(self, rhs: Self) -> Self {
        choose|r: Self| r@ == self@ + negate_terms(rhs@, F::modulus())
    }
}

impl<F: Field> Sub for LinearCombination<F> {
    type Output = Self;

    fn sub(self, rhs: Self) -> (r: Self::Output)
        ensures
            r@ == self@ + negate_terms(rhs@, F::modulus()),
    {
        let neg = rhs.neg();
        self + neg
    }
}

impl<F: Field> vstd::std_specs::ops::SubSpecImpl<F> for LinearCombination<F> {
    open spec fn obeys_sub_spec() -> bool {
        false
    }

    open spec fn sub_req(self, rhs: F) -> bool {
        true
    }

    open spec fn sub_spec(self, rhs: F) -> Self {
        choose|r: Self| r@ == self@.push((Variable::One(), sub_mod(0, rhs.value(), F::modulus())))
    }
}

impl<F: Field> Sub<F> for LinearCombination<F> {
    type Output = Self;

    fn sub(self, rhs: F) -> (r: Self::Output)
        ensures
            r@ == self@.push((Variable::One(), sub_mod(0, rhs.value(), F::modulus()))),
    {
        let r = self - LinearCombination::from(rhs);
        assert(r@ =~= self@.push((Variable::One(), sub_mod(0, rhs.value(), F::modulus()))));
        r
    }
}

impl<F: Field> vstd::std_specs::ops::MulSpecImpl<F> for LinearCombination<F> {
    open spec fn obeys_mul_spec() -> bool {
        false
    }

    open spec fn mul_req(self, other: F) -> bool {
        true
    }

    open spec fn mul_spec(self, other: F) -> Self {
        choose|r: Self| r@ == scale_terms(self@, other.value(), F::modulus())
    }
}

impl<F: Field> Mul<F> for LinearCombination<F> {
    type Output = Self;

    fn mul(self, other: F) -> (r: Self::Output)
        ensures
            r@ == scale_terms(self@, other.value(), F::modulus()),
    {
        let mut terms: Vec<(Variable, F)> = Vec::new();
        let mut i: usize = 0;
        while i < self.terms.len()
            invariant
                i <= self.terms@.len(),
                terms@.len() == i,
                forall|j: int|
                    0 <= j < i ==> (#[trigger] terms@[j]).0 == self.terms@[j].0 && terms@[j].1.value() == mul_mod(
                        self.terms@[j].1.value(),
                        other.value(),
                        F::modulus(),
                    ),
            decreases self.terms@.len() - i,
        {
            let (var, coeff) = self.terms[i];
            terms.push((var, coeff.times(other)));
            i += 1;
        }
        let r = LinearCombination { terms };
        assert(r@ =~= scale_terms(self@, other.value(), F::modulus()));
        r
    }
}

// ---------------------------------------------------------------------------
// Evaluation of linear combinations
// ---------------------------------------------------------------------------

/// The value of a sum of linear combinations is the sum of their values.
pub proof fn law_eval_add(s: Terms, t: Terms, assignment: spec_fn(Variable) -> int)
    ensures
        eval_terms(s + t, assignment) == eval_terms(s, assignment) + eval_terms(t, assignment),
{
    let f = |i: int| (s + t)[i].1 * assignment((s + t)[i].0);
    let n = s.len() as int;
    let m = t.len() as int;
    lemma_sum_split(n, m, f);
    lemma_sum_ext(n, f, |i: int| s[i].1 * assignment(s[i].0));
    lemma_sum_ext(m, |i: int| f(n + i), |i: int| t[i].1 * assignment(t[i].0));
}

/// The value of a linear combination with one more term.
pub proof fn law_eval_push(s: Terms, var: Variable, coeff: int, assignment: spec_fn(Variable) -> int)
    ensures
        eval_terms(s.push((var, coeff)), assignment) == eval_terms(s, assignment) + coeff * assignment(var),
{
    let t: Terms = seq![(var, coeff)];
    law_eval_add(s, t, assignment);
    assert(s + t =~= s.push((var, coeff)));
    let f = |i: int| t[i].1 * assignment(t[i].0);
    assert(sum(1, f) == sum(0, f) + f(0));
}

/// The value of a negated linear combination is the negated value.
pub proof fn law_eval_neg(t: Terms, assignment: spec_fn(Variable) -> int, q: int)
    requires
        q > 1,
    ensures
        eqm(eval_terms(negate_terms(t, q), assignment), -eval_terms(t, assignment), q),
{
    let n = t.len() as int;
    let s = negate_terms(t, q);
    let f = |i: int| s[i].1 * assignment(s[i].0);
    let g = |i: int| t[i].1 * assignment(t[i].0);
    assert forall|i: int| 0 <= i < n implies eqm(#[trigger] f(i), -1 * g(i), q) by {
        reveal(sub_mod);
        reveal(md);
        let (c, v) = (t[i].1, assignment(t[i].0));
        lemma_md_range(0 - c, q);
        lemma_eqm_mul(s[i].1, 0 - c, v, v, q);
        assert((0 - c) * v == -1 * (c * v)) by (nonlinear_arith);
    }
    lemma_eqm_sum(n, f, |i: int| -1 * g(i), q);
    lemma_sum_scale(n, -1, g);
}

/// The value of a multiple of a linear combination is the multiple of its
/// value.
pub proof fn law_eval_scale(t: Terms, c: int, assignment: spec_fn(Variable) -> int, q: int)
    requires
        q > 1,
    ensures
        eqm(eval_terms(scale_terms(t, c, q), assignment), c * eval_terms(t, assignment), q),
{
    let n = t.len() as int;
    let s = scale_terms(t, c, q);
    let f = |i: int| s[i].1 * assignment(s[i].0);
    let g = |i: int| t[i].1 * assignment(t[i].0);
    assert forall|i: int| 0 <= i < n implies eqm(#[trigger] f(i), c * g(i), q) by {
        reveal(mul_mod);
        reveal(md);
        let (x, v) = (t[i].1, assignment(t[i].0));
        lemma_md_range(x * c, q);
        lemma_eqm_mul(s[i].1, x * c, v, v, q);
        assert((x * c) * v == c * (x * v)) by (nonlinear_arith);
    }
    lemma_eqm_sum(n, f, |i: int| c * g(i), q);
    lemma_sum_scale(n, c, g);
}

} // verus!
