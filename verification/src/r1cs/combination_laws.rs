//! The operators on linear combinations do to their values what they are named
//! after.

use std::ops::{Add, Mul, Neg, Sub};
use vstd::prelude::*;
use crate::group::Field;
use crate::modular::{eqm, group_mod, lemma_eqm_add, lemma_md_range, md, sub_mod};
use crate::r1cs::linear_combination::{
    LinearCombination, Variable, eval_terms, law_eval_add, law_eval_neg, law_eval_push, law_eval_scale,
    negate_terms,
};

verus! {

broadcast use group_mod;

/// `a + b` has the sum of the values.
pub proof fn law_add<F: Field>(
    a: LinearCombination<F>,
    b: LinearCombination<F>,
    r: LinearCombination<F>,
    assignment: spec_fn(Variable) -> int,
)
    requires
        call_ensures(<LinearCombination<F> as Add>::add, (a, b), r),
    ensures
        eqm(eval_terms(r@, assignment), eval_terms(a@, assignment) + eval_terms(b@, assignment), F::modulus()),
{
    law_eval_add(a@, b@, assignment);
}

/// `a + v` has the sum of the values.
pub proof fn law_add_variable<F: Field>(
    a: LinearCombination<F>,
    v: Variable,
    r: LinearCombination<F>,
    assignment: spec_fn(Variable) -> int,
)
    requires
        call_ensures(<LinearCombination<F> as Add<Variable>>::add, (a, v), r),
    ensures
        eval_terms(r@, assignment) == eval_terms(a@, assignment) + assignment(v),
{
    law_eval_push(a@, v, 1, assignment);
}

/// `-a` has the negated value.
pub proof fn law_neg<F: Field>(
    a: LinearCombination<F>,
    r: LinearCombination<F>,
    assignment: spec_fn(Variable) -> int,
)
    requires
        call_ensures(<LinearCombination<F> as Neg>::neg, (a,), r),
    ensures
        eqm(eval_terms(r@, assignment) + eval_terms(a@, assignment), 0, F::modulus()),
{
    let q = F::modulus();
    F::modulus_range();
    law_eval_neg(a@, assignment, q);
    let v = eval_terms(a@, assignment);
    lemma_eqm_add(eval_terms(r@, assignment), -v, v, v, q);
}

/// `a - b` has the difference of the values.
pub proof fn law_sub<F: Field>(
    a: LinearCombination<F>,
    b: LinearCombination<F>,
    r: LinearCombination<F>,
    assignment: spec_fn(Variable) -> int,
)
    requires
        call_ensures(<LinearCombination<F> as Sub>::sub, (a, b), r),
    ensures
        eqm(eval_terms(r@, assignment), eval_terms(a@, assignment) - eval_terms(b@, assignment), F::modulus()),
{
    let q = F::modulus();
    F::modulus_range();
    let n = negate_terms(b@, q);
    law_eval_add(a@, n, assignment);
    law_eval_neg(b@, assignment, q);
    let (u, v) = (eval_terms(a@, assignment), eval_terms(b@, assignment));
    lemma_eqm_add(u, u, eval_terms(n, assignment), -v, q);
}

/// `a - c` has the difference of the value and the constant.
pub proof fn law_sub_constant<F: Field>(
    a: LinearCombination<F>,
    c: F,
    r: LinearCombination<F>,
    assignment: spec_fn(Variable) -> int,
)
    requires
        call_ensures(<LinearCombination<F> as Sub<F>>::sub, (a, c), r),
        assignment(Variable::One()) == 1,
    ensures
        eqm(eval_terms(r@, assignment), eval_terms(a@, assignment) - c.value(), F::modulus()),
{
    let q = F::modulus();
    F::modulus_range();
    let (u, v) = (eval_terms(a@, assignment), c.value());
    law_eval_push(a@, Variable::One(), sub_mod(0, v, q), assignment);
    reveal(sub_mod);
    reveal(md);
    lemma_md_range(0 - v, q);
    lemma_eqm_add(u, u, sub_mod(0, v, q), -v, q);
    assert(sub_mod(0, v, q) * 1 == sub_mod(0, v, q));
}

/// `a * c` has the value times the constant.
pub proof fn law_mul<F: Field>(
    a: LinearCombination<F>,
    c: F,
    r: LinearCombination<F>,
    assignment: spec_fn(Variable) -> int,
)
    requires
        call_ensures(<LinearCombination<F> as Mul<F>>::mul, (a, c), r),
    ensures
        eqm(eval_terms(r@, assignment), c.value() * eval_terms(a@, assignment), F::modulus()),
{
    F::modulus_range();
    law_eval_scale(a@, c.value(), assignment, F::modulus());
}

/// A variable has its own value, a constant that of as many ones, and no terms
/// have the value zero.
pub proof fn law_simple_combinations<F: Field>(
    v: Variable,
    from_variable: LinearCombination<F>,
    c: F,
    from_constant: LinearCombination<F>,
    nothing: LinearCombination<F>,
    assignment: spec_fn(Variable) -> int,
)
    requires
        call_ensures(<LinearCombination<F> as From<Variable>>::from, (v,), from_variable),
        call_ensures(<LinearCombination<F> as From<F>>::from, (c,), from_constant),
        call_ensures(<LinearCombination<F> as Default>::default, (), nothing),
    ensures
        eval_terms(from_variable@, assignment) == assignment(v),
        eval_terms(from_constant@, assignment) == c.value() * assignment(Variable::One()),
        eval_terms(nothing@, assignment) == 0,
{
    law_eval_push(nothing@, v, 1, assignment);
    law_eval_push(nothing@, Variable::One(), c.value(), assignment);
    assert(from_variable@ =~= nothing@.push((v, 1int)));
    assert(from_constant@ =~= nothing@.push((Variable::One(), c.value())));
}

/// A linear combination is read term by term: which variable, and the residue
/// of its coefficient.
pub proof fn law_terms<F: Field>(a: LinearCombination<F>, i: int)
    ensures
        a@.len() == a.terms@.len(),
        0 <= i < a.terms@.len() ==> a@[i].0 == a.terms@[i].0 && a@[i].1 == a.terms@[i].1.value(),
{
}

} // verus!
