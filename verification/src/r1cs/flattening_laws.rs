//! The flattened constraints say of an assignment what the constraints say.

use vstd::arithmetic::power::pow;
use vstd::prelude::*;
use crate::modular::{eqm, lemma_eqm_add, lemma_eqm_mul, lemma_eqm_sum, lemma_md_range, md};
use crate::r1cs::constraint_system::{
    coefficient, constraints_in_range, in_range, term_part, terms_in_range, weight,
};
use crate::r1cs::honest::{weight_constant, weights_input, weights_left, weights_output, weights_right};
use crate::r1cs::linear_combination::{Terms, Variable, eval_terms};
use crate::r1cs::witness::{Witness, assignment, satisfied};
use crate::sums::{dot, lemma_sum_add, lemma_sum_ext, lemma_sum_scale, lemma_sum_swap, lemma_sum_zero, sum};

verus! {

/// The four kinds of variables that carry an index.
#[derive(Structural, PartialEq, Eq)]
pub enum Kind {
    Left,
    Right,
    Output,
    Input,
}

/// The variable of a kind with a given index.
pub open spec fn variable(kind: Kind, i: int) -> Variable {
    match kind {
        Kind::Left => Variable::MultiplierLeft(i as usize),
        Kind::Right => Variable::MultiplierRight(i as usize),
        Kind::Output => Variable::MultiplierOutput(i as usize),
        Kind::Input => Variable::Committed(i as usize),
    }
}

/// The values of the variables of a kind.
pub open spec fn values_of(w: Witness, kind: Kind) -> Seq<int> {
    match kind {
        Kind::Left => w.a_L,
        Kind::Right => w.a_R,
        Kind::Output => w.a_O,
        Kind::Input => w.v,
    }
}

/// The variables of a kind, weighted as all constraints together weight them.
pub open spec fn weighted_values(w: Witness, z: int, kind: Kind) -> int {
    let vals = values_of(w, kind);
    sum(vals.len() as int, |i: int| weight(w.constraints, z, variable(kind, i)) * vals[i])
}

/// The first `m` terms of a linear combination, restricted to a kind.
spec fn kind_sum(t: Terms, m: int, kind: Kind, vals: Seq<int>) -> int {
    sum(
        vals.len() as int,
        |i: int| sum(m, |j: int| term_part(t, j, variable(kind, i))) * vals[i],
    )
}

/// A sum in which a single term counts.
proof fn lemma_sum_single(n: int, k: int, f: spec_fn(int) -> int)
    requires
        0 <= k < n,
        forall|i: int| 0 <= i < n && i != k ==> #[trigger] f(i) == 0,
    ensures
        sum(n, f) == f(k),
    decreases n,
{
    if n - 1 == k {
        lemma_sum_zero(n - 1, f);
    } else {
        lemma_sum_single(n - 1, k, f);
        assert(f(n - 1) == 0);
    }
}

/// What term `m` adds to its own kind.
proof fn lemma_kind_step(t: Terms, m: int, kind: Kind, vals: Seq<int>)
    requires
        0 <= m < t.len(),
        vals.len() <= usize::MAX,
    ensures
        (forall|i: int| 0 <= i < vals.len() ==> t[m].0 != #[trigger] variable(kind, i)) ==> kind_sum(
            t,
            m + 1,
            kind,
            vals,
        ) == kind_sum(t, m, kind, vals),
        forall|k: int|
            0 <= k < vals.len() && t[m].0 == #[trigger] variable(kind, k) ==> kind_sum(t, m + 1, kind, vals)
                == kind_sum(t, m, kind, vals) + t[m].1 * vals[k],
{
    let n = vals.len() as int;
    let f = |i: int| sum(m + 1, |j: int| term_part(t, j, variable(kind, i))) * vals[i];
    let g = |i: int| sum(m, |j: int| term_part(t, j, variable(kind, i))) * vals[i];
    let h = |i: int| term_part(t, m, variable(kind, i)) * vals[i];
    assert forall|i: int| 0 <= i < n implies #[trigger] f(i) == g(i) + h(i) by {
        let p = |j: int| term_part(t, j, variable(kind, i));
        let (a, b, v) = (sum(m, p), p(m), vals[i]);
        assert(sum(m + 1, p) == a + b);
        assert((a + b) * v == a * v + b * v) by (nonlinear_arith);
    }
    lemma_sum_add(n, g, h);
    lemma_sum_ext(n, f, |i: int| g(i) + h(i));
    if forall|i: int| 0 <= i < n ==> t[m].0 != #[trigger] variable(kind, i) {
        assert forall|i: int| 0 <= i < n implies #[trigger] h(i) == 0 by {
            assert(t[m].0 != variable(kind, i));
            let v = vals[i];
            assert(0 * v == 0);
        }
        lemma_sum_zero(n, h);
    }
    assert forall|k: int| 0 <= k < n && t[m].0 == #[trigger] variable(kind, k) implies kind_sum(
        t,
        m + 1,
        kind,
        vals,
    ) == kind_sum(t, m, kind, vals) + t[m].1 * vals[k] by {
        assert forall|i: int| 0 <= i < n && i != k implies #[trigger] h(i) == 0 by {
            assert(variable(kind, i) != variable(kind, k));
            let v = vals[i];
            assert(0 * v == 0);
        }
        lemma_sum_single(n, k, h);
    }
}

/// The value of the first `m` terms, kind by kind.
proof fn lemma_eval_by_kind(w: Witness, t: Terms, m: int)
    requires
        0 <= m <= t.len(),
        terms_in_range(t, w.a_L.len() as int, w.v.len() as int),
        w.a_L.len() == w.a_R.len() == w.a_O.len(),
        w.a_L.len() <= usize::MAX,
        w.v.len() <= usize::MAX,
    ensures
        sum(m, |i: int| t[i].1 * assignment(w)(t[i].0)) == kind_sum(t, m, Kind::Left, w.a_L) + kind_sum(
            t,
            m,
            Kind::Right,
            w.a_R,
        ) + kind_sum(t, m, Kind::Output, w.a_O) + kind_sum(t, m, Kind::Input, w.v) + sum(
            m,
            |j: int| term_part(t, j, Variable::One()),
        ),
    decreases m,
{
    let f = |i: int| t[i].1 * assignment(w)(t[i].0);
    let one = |j: int| term_part(t, j, Variable::One());
    if m == 0 {
        assert forall|kind: Kind, vals: Seq<int>| #[trigger] kind_sum(t, 0, kind, vals) == 0 by {
            let g = |i: int| sum(0, |j: int| term_part(t, j, variable(kind, i))) * vals[i];
            assert forall|i: int| 0 <= i < vals.len() implies #[trigger] g(i) == 0 by {
                let v = vals[i];
                assert(0 * v == 0);
            }
            lemma_sum_zero(vals.len() as int, g);
        }
    } else {
        lemma_eval_by_kind(w, t, m - 1);
        lemma_kind_step(t, m - 1, Kind::Left, w.a_L);
        lemma_kind_step(t, m - 1, Kind::Right, w.a_R);
        lemma_kind_step(t, m - 1, Kind::Output, w.a_O);
        lemma_kind_step(t, m - 1, Kind::Input, w.v);
        let var = t[m - 1].0;
        let coeff = t[m - 1].1;
        assert(in_range(var, w.a_L.len() as int, w.v.len() as int));
        assert(sum(m, f) == sum(m - 1, f) + f(m - 1));
        assert(sum(m, one) == sum(m - 1, one) + one(m - 1));
        match var {
            Variable::MultiplierLeft(i) => {
                assert(var == variable(Kind::Left, i as int));
            },
            Variable::MultiplierRight(i) => {
                assert(var == variable(Kind::Right, i as int));
            },
            Variable::MultiplierOutput(i) => {
                assert(var == variable(Kind::Output, i as int));
            },
            Variable::Committed(i) => {
                assert(var == variable(Kind::Input, i as int));
            },
            Variable::One() => {
                assert(coeff * 1 == coeff);
            },
        }
    }
}

/// The weights of one kind, constraint by constraint.
proof fn lemma_weighted_by_constraint(w: Witness, z: int, kind: Kind)
    ensures
        weighted_values(w, z, kind) == sum(
            w.constraints.len() as int,
            |c: int|
                pow(z, (c + 1) as nat) * kind_sum(
                    w.constraints[c],
                    w.constraints[c].len() as int,
                    kind,
                    values_of(w, kind),
                ),
        ),
{
    let cs = w.constraints;
    let m = cs.len() as int;
    let vals = values_of(w, kind);
    let n = vals.len() as int;
    let cell = |i: int, c: int| (pow(z, (c + 1) as nat) * coefficient(cs[c], variable(kind, i))) * vals[i];
    let rows = |i: int| weight(cs, z, variable(kind, i)) * vals[i];
    let rows2 = |i: int| sum(m, |c: int| cell(i, c));
    assert forall|i: int| 0 <= i < n implies #[trigger] rows(i) == rows2(i) by {
        let f = |c: int| pow(z, (c + 1) as nat) * coefficient(cs[c], variable(kind, i));
        let v = vals[i];
        lemma_sum_scale(m, v, f);
        let s = sum(m, f);
        assert(s * v == v * s) by (nonlinear_arith);
        let f2 = |c: int| v * f(c);
        let f3 = |c: int| cell(i, c);
        assert forall|c: int| 0 <= c < m implies #[trigger] f2(c) == f3(c) by {
            let a = f(c);
            assert(v * a == a * v) by (nonlinear_arith);
        }
        lemma_sum_ext(m, f2, f3);
    }
    lemma_sum_ext(n, rows, rows2);
    lemma_sum_swap(n, m, cell);
    let cols = |c: int| sum(n, |i: int| cell(i, c));
    let target = |c: int| pow(z, (c + 1) as nat) * kind_sum(cs[c], cs[c].len() as int, kind, vals);
    assert forall|c: int| 0 <= c < m implies #[trigger] cols(c) == target(c) by {
        let p = pow(z, (c + 1) as nat);
        let g = |i: int|
            sum(cs[c].len() as int, |j: int| term_part(cs[c], j, variable(kind, i))) * vals[i];
        lemma_sum_scale(n, p, g);
        let h1 = |i: int| cell(i, c);
        let h2 = |i: int| p * g(i);
        assert forall|i: int| 0 <= i < n implies #[trigger] h1(i) == h2(i) by {
            let (a, v) = (coefficient(cs[c], variable(kind, i)), vals[i]);
            assert((p * a) * v == p * (a * v)) by (nonlinear_arith);
        }
        lemma_sum_ext(n, h1, h2);
    }
    lemma_sum_ext(m, cols, target);
}

/// The flattened constraints evaluate to the sum of all constraints, of which
/// the `c`th is multiplied by `z^(c + 1)`.
pub proof fn law_flattening(w: Witness, z: int)
    requires
        constraints_in_range(w.constraints, w.a_L.len() as int, w.v.len() as int),
        w.a_L.len() == w.a_R.len() == w.a_O.len(),
        w.a_L.len() <= usize::MAX,
        w.v.len() <= usize::MAX,
    ensures
        sum(
            w.constraints.len() as int,
            |c: int| pow(z, (c + 1) as nat) * eval_terms(w.constraints[c], assignment(w)),
        ) == weighted_values(w, z, Kind::Left) + weighted_values(w, z, Kind::Right) + weighted_values(
            w,
            z,
            Kind::Output,
        ) + weighted_values(w, z, Kind::Input) + weight(w.constraints, z, Variable::One()),
{
    let cs = w.constraints;
    let m = cs.len() as int;
    let whole = |c: int| pow(z, (c + 1) as nat) * eval_terms(cs[c], assignment(w));
    let l = |c: int| pow(z, (c + 1) as nat) * kind_sum(cs[c], cs[c].len() as int, Kind::Left, w.a_L);
    let r = |c: int| pow(z, (c + 1) as nat) * kind_sum(cs[c], cs[c].len() as int, Kind::Right, w.a_R);
    let o = |c: int| pow(z, (c + 1) as nat) * kind_sum(cs[c], cs[c].len() as int, Kind::Output, w.a_O);
    let v = |c: int| pow(z, (c + 1) as nat) * kind_sum(cs[c], cs[c].len() as int, Kind::Input, w.v);
    let one = |c: int| pow(z, (c + 1) as nat) * coefficient(cs[c], Variable::One());
    let lr = |c: int| l(c) + r(c);
    let lro = |c: int| lr(c) + o(c);
    let lrov = |c: int| lro(c) + v(c);
    assert forall|c: int| 0 <= c < m implies #[trigger] whole(c) == lrov(c) + one(c) by {
        let t = cs[c];
        assert(terms_in_range(t, w.a_L.len() as int, w.v.len() as int));
        lemma_eval_by_kind(w, t, t.len() as int);
        let p = pow(z, (c + 1) as nat);
        let (x1, x2, x3, x4, x5) = (
            kind_sum(t, t.len() as int, Kind::Left, w.a_L),
            kind_sum(t, t.len() as int, Kind::Right, w.a_R),
            kind_sum(t, t.len() as int, Kind::Output, w.a_O),
            kind_sum(t, t.len() as int, Kind::Input, w.v),
            coefficient(t, Variable::One()),
        );
        assert(p * (x1 + x2 + x3 + x4 + x5) == p * x1 + p * x2 + p * x3 + p * x4 + p * x5) by (nonlinear_arith);
    }
    lemma_sum_ext(m, whole, |c: int| lrov(c) + one(c));
    lemma_sum_add(m, lrov, one);
    lemma_sum_add(m, lro, v);
    lemma_sum_add(m, lr, o);
    lemma_sum_add(m, l, r);
    lemma_sum_ext(m, lrov, |c: int| lro(c) + v(c));
    lemma_sum_ext(m, lro, |c: int| lr(c) + o(c));
    lemma_sum_ext(m, lr, |c: int| l(c) + r(c));
    lemma_weighted_by_constraint(w, z, Kind::Left);
    lemma_weighted_by_constraint(w, z, Kind::Right);
    lemma_weighted_by_constraint(w, z, Kind::Output);
    lemma_weighted_by_constraint(w, z, Kind::Input);
}

/// If all constraints are satisfied, so are the flattened ones.
pub proof fn law_flattening_satisfied(w: Witness, z: int, q: int)
    requires
        q > 1,
        constraints_in_range(w.constraints, w.a_L.len() as int, w.v.len() as int),
        w.a_L.len() == w.a_R.len() == w.a_O.len(),
        w.a_L.len() <= usize::MAX,
        w.v.len() <= usize::MAX,
        satisfied(w, q),
    ensures
        eqm(
            weighted_values(w, z, Kind::Left) + weighted_values(w, z, Kind::Right) + weighted_values(
                w,
                z,
                Kind::Output,
            ) + weighted_values(w, z, Kind::Input) + weight(w.constraints, z, Variable::One()),
            0,
            q,
        ),
{
    law_flattening(w, z);
    let cs = w.constraints;
    let m = cs.len() as int;
    let f = |c: int| pow(z, (c + 1) as nat) * eval_terms(cs[c], assignment(w));
    let zero = |c: int| 0int;
    assert forall|c: int| 0 <= c < m implies eqm(#[trigger] f(c), zero(c), q) by {
        let p = pow(z, (c + 1) as nat);
        assert(eqm(eval_terms(cs[c], assignment(w)), 0, q));
        lemma_eqm_mul(p, p, eval_terms(cs[c], assignment(w)), 0, q);
        assert(p * 0 == 0);
    }
    lemma_eqm_sum(m, f, zero, q);
    lemma_sum_zero(m, zero);
}

/// Residues of weights weight as the weights do.
proof fn lemma_residue_weights(u: Seq<int>, x: spec_fn(int) -> int, vals: Seq<int>, q: int)
    requires
        q > 1,
        u.len() == vals.len(),
        forall|i: int| 0 <= i < u.len() ==> #[trigger] u[i] == md(x(i), q),
    ensures
        eqm(dot(u, vals), sum(vals.len() as int, |i: int| x(i) * vals[i]), q),
{
    let f = |i: int| u[i] * vals[i];
    let g = |i: int| x(i) * vals[i];
    assert forall|i: int| 0 <= i < u.len() implies eqm(#[trigger] f(i), g(i), q) by {
        lemma_md_range(x(i), q);
        assert(u[i] == md(x(i), q));
        lemma_eqm_mul(u[i], x(i), vals[i], vals[i], q);
    }
    lemma_eqm_sum(u.len() as int, f, g, q);
}

/// What a prover and a verifier make of the constraints: the multipliers,
/// weighted, are the inputs, weighted, and the constant, but for the sum of all
/// constraints, of which the `c`th is multiplied by `z^(c + 1)`.
pub proof fn law_weights(w: Witness, z: int, q: int)
    requires
        q > 1,
        constraints_in_range(w.constraints, w.a_L.len() as int, w.v.len() as int),
        w.a_L.len() == w.a_R.len() == w.a_O.len(),
        w.a_L.len() <= usize::MAX,
        w.v.len() <= usize::MAX,
    ensures
        ({
            let (n, m) = (w.a_L.len() as int, w.v.len() as int);
            eqm(
                dot(weights_left(w.constraints, n, z, q), w.a_L) + dot(
                    weights_right(w.constraints, n, z, q),
                    w.a_R,
                ) + dot(weights_output(w.constraints, n, z, q), w.a_O),
                dot(weights_input(w.constraints, m, z, q), w.v) + weight_constant(w.constraints, z, q) + sum(
                    w.constraints.len() as int,
                    |c: int| pow(z, (c + 1) as nat) * eval_terms(w.constraints[c], assignment(w)),
                ),
                q,
            )
        }),
{
    let cs = w.constraints;
    let (n, m) = (w.a_L.len() as int, w.v.len() as int);
    let (ul, ur) = (weights_left(cs, n, z, q), weights_right(cs, n, z, q));
    let (uo, ui) = (weights_output(cs, n, z, q), weights_input(cs, m, z, q));
    law_flattening(w, z);
    let xl = |i: int| weight(cs, z, variable(Kind::Left, i));
    let xr = |i: int| weight(cs, z, variable(Kind::Right, i));
    let xo = |i: int| weight(cs, z, variable(Kind::Output, i));
    let xi = |i: int| weight(cs, z, variable(Kind::Input, i));
    let minus = |i: int| -xi(i);
    lemma_residue_weights(ul, xl, w.a_L, q);
    lemma_residue_weights(ur, xr, w.a_R, q);
    lemma_residue_weights(uo, xo, w.a_O, q);
    lemma_residue_weights(ui, minus, w.v, q);
    let (l, r) = (weighted_values(w, z, Kind::Left), weighted_values(w, z, Kind::Right));
    let (o, i) = (weighted_values(w, z, Kind::Output), weighted_values(w, z, Kind::Input));
    lemma_sum_ext(n, |i: int| xl(i) * w.a_L[i], |i: int| weight(cs, z, variable(Kind::Left, i)) * w.a_L[i]);
    lemma_sum_ext(n, |i: int| xr(i) * w.a_R[i], |i: int| weight(cs, z, variable(Kind::Right, i)) * w.a_R[i]);
    lemma_sum_ext(n, |i: int| xo(i) * w.a_O[i], |i: int| weight(cs, z, variable(Kind::Output, i)) * w.a_O[i]);
    let gi = |i: int| weight(cs, z, variable(Kind::Input, i)) * w.v[i];
    let gm = |i: int| minus(i) * w.v[i];
    assert forall|j: int| 0 <= j < m implies #[trigger] gm(j) == (-1) * gi(j) by {
        let (x, v) = (xi(j), w.v[j]);
        assert((-x) * v == (-1) * (x * v)) by (nonlinear_arith);
    }
    lemma_sum_ext(m, gm, |j: int| (-1) * gi(j));
    lemma_sum_scale(m, -1, gi);
    assert(i == sum(m, gi));
    let one = weight(cs, z, Variable::One());
    lemma_md_range(-one, q);
    let whole = sum(cs.len() as int, |c: int| pow(z, (c + 1) as nat) * eval_terms(cs[c], assignment(w)));
    lemma_eqm_add(dot(ul, w.a_L), l, dot(ur, w.a_R), r, q);
    lemma_eqm_add(dot(ul, w.a_L) + dot(ur, w.a_R), l + r, dot(uo, w.a_O), o, q);
    lemma_eqm_add(dot(ui, w.v), -i, weight_constant(cs, z, q), -one, q);
    lemma_eqm_add(dot(ui, w.v) + weight_constant(cs, z, q), -i - one, whole, whole, q);
}

} // verus!
