//! The values of the variables of a constraint system.

use vstd::prelude::*;
use crate::modular::{eqm, md, sub_mod};
use crate::r1cs::linear_combination::{Terms, Variable, eval_terms};

verus! {

/// What the prover knows: the values of the multipliers and of the inputs,
/// the blinding factor of the commitment to the inputs, and the constraints.
pub struct Witness {
    pub a_L: Seq<int>,
    pub a_R: Seq<int>,
    pub a_O: Seq<int>,
    pub v: Seq<int>,
    pub v_blinding: int,
    pub constraints: Seq<Terms>,
}

/// The value of a variable.
pub open spec fn value_of(w: Witness, var: Variable) -> int {
    match var {
        Variable::Committed(i) => w.v[i as int],
        Variable::MultiplierLeft(i) => w.a_L[i as int],
        Variable::MultiplierRight(i) => w.a_R[i as int],
        Variable::MultiplierOutput(i) => w.a_O[i as int],
        Variable::One() => 1,
    }
}

/// The values of all variables.
pub open spec fn assignment(w: Witness) -> spec_fn(Variable) -> int {
    |var: Variable| value_of(w, var)
}

/// The witness with one more multiplier, whose inputs have the values of
/// `left` and `right` and are constrained to them.
pub open spec fn multiplied(w: Witness, left: Terms, right: Terms, q: int) -> Witness {
    let n = w.a_L.len() as usize;
    let l = md(eval_terms(left, assignment(w)), q);
    let r = md(eval_terms(right, assignment(w)), q);
    let minus_one = sub_mod(0, 1, q);
    Witness {
        a_L: w.a_L.push(l),
        a_R: w.a_R.push(r),
        a_O: w.a_O.push(md(l * r, q)),
        constraints: w.constraints.push(left.push((Variable::MultiplierLeft(n), minus_one))).push(
            right.push((Variable::MultiplierRight(n), minus_one)),
        ),
        ..w
    }
}

/// The witness with one more constraint.
pub open spec fn constrained(w: Witness, t: Terms) -> Witness {
    Witness { constraints: w.constraints.push(t), ..w }
}

/// The witness with one more multiplier, of the given values.
pub open spec fn allocated(w: Witness, l: int, r: int, o: int) -> Witness {
    Witness { a_L: w.a_L.push(l), a_R: w.a_R.push(r), a_O: w.a_O.push(o), ..w }
}

/// Every constraint evaluates to zero and every multiplier multiplies.
pub open spec fn satisfied(w: Witness, q: int) -> bool {
    &&& forall|c: int|
        0 <= c < w.constraints.len() ==> eqm(
            eval_terms(#[trigger] w.constraints[c], assignment(w)),
            0,
            q,
        )
    &&& forall|i: int| 0 <= i < w.a_L.len() ==> eqm(#[trigger] w.a_O[i], w.a_L[i] * w.a_R[i], q)
}

} // verus!
