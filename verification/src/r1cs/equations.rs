//! The equations that a verifier checks.

use vstd::prelude::*;
use crate::ecp::EcpScalars;
use crate::generators::GensView;
use crate::group::{Field, Group};
use crate::ipa::IpaScalars;
use crate::modular::{inv_mod, md};
use crate::r1cs::honest::{weight_constant, weights_input, weights_left, weights_output, weights_right};
use crate::r1cs::linear_combination::Terms;
use crate::r1cs::r1cs_proof::{Challenges, R1CSProof};
use crate::sums::{at, dot, sum};
use crate::transcript::Log;
use crate::util::powers_of;

verus! {

/// The group elements in a proof, by their indices.
pub struct Opened {
    pub a_i: int,
    pub a_o: int,
    pub s: int,
    pub v: int,
    pub s_prime: int,
    pub t_1: int,
    pub t_2: int,
    pub t_3: int,
    pub t_4: int,
    pub t_5: int,
    pub t_6: int,
    pub t_1_prime: int,
    pub s1_prime: int,
    pub s2_prime: int,
    pub u: Seq<int>,
    pub a0: Seq<int>,
    pub a1: Seq<int>,
}

/// The scalars in a proof.
pub struct Responses {
    pub t_x: int,
    pub t_x_blinding: int,
    pub e_blinding: int,
    pub tc_x: int,
    pub tc_x_blinding: int,
    pub ec_blinding: int,
    pub t_cross: int,
    pub r_blinding: int,
}

/// The ciphertexts that go in, and the pair that comes out.
pub struct Statement {
    pub c1: Seq<int>,
    pub c2: Seq<int>,
    pub c_0: int,
    pub c_1: int,
}

/// The coefficients that the constraints give to the variables, for `n`
/// multipliers and `k` inputs, and the powers of the inverse of `y`.
pub struct Flattened {
    pub wl: Seq<int>,
    pub wr: Seq<int>,
    pub wo: Seq<int>,
    pub wv: Seq<int>,
    pub wc: int,
    pub yi: Seq<int>,
    pub k: int,
}

pub open spec fn flattened(cs: Seq<Terms>, n: int, k: int, y: int, z: int, q: int) -> Flattened {
    Flattened {
        wl: weights_left(cs, n, z, q),
        wr: weights_right(cs, n, z, q),
        wo: weights_output(cs, n, z, q),
        wv: weights_input(cs, k, z, q),
        wc: weight_constant(cs, z, q),
        yi: powers_of(inv_mod(y, q), k, q),
        k,
    }
}

/// The element that some bytes encode.
pub open spec fn element<G: Group>(e: G::Encoding) -> int {
    G::decoding(G::bytes(e))->0
}

/// Some bytes encode an element.
pub open spec fn is_element<G: Group>(e: G::Encoding) -> bool {
    G::decoding(G::bytes(e)) is Some
}

impl<G: Group> R1CSProof<G> {
    /// The number of cross terms in each round of the inner product argument.
    pub open spec fn ipp_width(self) -> int {
        2 * self.ipp_proof.k - 2
    }

    /// The number of pairs in each round of the argument on the ciphertexts.
    pub open spec fn ecp_width(self) -> int {
        2 * self.ecp_batched.k - 2
    }

    /// The proof has the shape that a verifier expects.
    pub open spec fn shaped(self) -> bool {
        &&& self.ipp_proof.shaped()
        &&& self.ecp_batched.shaped()
        &&& forall|r: int|
            0 <= r < self.ecp_batched.A_vecs@.len() ==> (#[trigger] self.ecp_batched.A_vecs@[r])@.len()
                == self.ecp_width()
        &&& G::bytes(self.A_I).len() <= u32::MAX
        &&& G::bytes(self.A_O).len() <= u32::MAX
        &&& G::bytes(self.S).len() <= u32::MAX
        &&& G::bytes(self.T_1).len() <= u32::MAX
        &&& G::bytes(self.T_2).len() <= u32::MAX
        &&& G::bytes(self.T_3).len() <= u32::MAX
        &&& G::bytes(self.T_4).len() <= u32::MAX
        &&& G::bytes(self.T_5).len() <= u32::MAX
        &&& G::bytes(self.T_6).len() <= u32::MAX
        &&& G::bytes(self.S_prime).len() <= u32::MAX
        &&& G::bytes(self.T_1_prime).len() <= u32::MAX
        &&& G::bytes(self.S1_prime).len() <= u32::MAX
        &&& G::bytes(self.S2_prime).len() <= u32::MAX
    }

    /// All cross terms of the inner product argument are group elements.
    pub open spec fn ipp_decodable(self) -> bool {
        forall|r: int, x: int|
            0 <= r < self.ipp_proof.U_vecs@.len() && 0 <= x < self.ipp_width() ==> is_element::<G>(
                #[trigger] self.ipp_proof.U_vecs@[r]@[x],
            )
    }

    /// All cross terms of the argument on the ciphertexts are group elements.
    pub open spec fn ecp_decodable(self) -> bool {
        forall|r: int, x: int|
            0 <= r < self.ecp_batched.A_vecs@.len() && 0 <= x < self.ecp_width() ==> is_element::<G>(
                (#[trigger] self.ecp_batched.A_vecs@[r]@[x])@[0],
            ) && is_element::<G>(self.ecp_batched.A_vecs@[r]@[x]@[1])
    }

    /// All other points of the proof are group elements.
    pub open spec fn points_decodable(self) -> bool {
        &&& is_element::<G>(self.A_I)
        &&& is_element::<G>(self.A_O)
        &&& is_element::<G>(self.S)
        &&& is_element::<G>(self.T_1)
        &&& is_element::<G>(self.T_2)
        &&& is_element::<G>(self.T_3)
        &&& is_element::<G>(self.T_4)
        &&& is_element::<G>(self.T_5)
        &&& is_element::<G>(self.T_6)
        &&& is_element::<G>(self.S_prime)
        &&& is_element::<G>(self.T_1_prime)
        &&& is_element::<G>(self.S1_prime)
        &&& is_element::<G>(self.S2_prime)
    }

    /// The cross terms of the inner product argument, by their indices.
    pub open spec fn ipp_elements(self) -> Seq<int> {
        let w = self.ipp_width();
        Seq::new(
            (self.ipp_proof.U_vecs@.len() * w) as nat,
            |i: int| element::<G>(self.ipp_proof.U_vecs@[i / w]@[i % w]),
        )
    }

    /// The group elements in the proof, and the commitment to the inputs.
    pub open spec fn opened(self, v: G::Encoding) -> Opened {
        let we = self.ecp_width();
        Opened {
            a_i: element::<G>(self.A_I),
            a_o: element::<G>(self.A_O),
            s: element::<G>(self.S),
            v: element::<G>(v),
            s_prime: element::<G>(self.S_prime),
            t_1: element::<G>(self.T_1),
            t_2: element::<G>(self.T_2),
            t_3: element::<G>(self.T_3),
            t_4: element::<G>(self.T_4),
            t_5: element::<G>(self.T_5),
            t_6: element::<G>(self.T_6),
            t_1_prime: element::<G>(self.T_1_prime),
            s1_prime: element::<G>(self.S1_prime),
            s2_prime: element::<G>(self.S2_prime),
            u: self.ipp_elements(),
            a0: Seq::new(
                (self.ecp_batched.A_vecs@.len() * we) as nat,
                |i: int| element::<G>(self.ecp_batched.A_vecs@[i / we]@[i % we]@[0]),
            ),
            a1: Seq::new(
                (self.ecp_batched.A_vecs@.len() * we) as nat,
                |i: int| element::<G>(self.ecp_batched.A_vecs@[i / we]@[i % we]@[1]),
            ),
        }
    }

    /// The scalars in the proof.
    pub open spec fn responses(self) -> Responses {
        Responses {
            t_x: self.t_x.value(),
            t_x_blinding: self.t_x_blinding.value(),
            e_blinding: self.e_blinding.value(),
            tc_x: self.tc_x.value(),
            tc_x_blinding: self.tc_x_blinding.value(),
            ec_blinding: self.ec_blinding.value(),
            t_cross: self.t_cross.value(),
            r_blinding: self.r_blinding.value(),
        }
    }
}

/// The bases `G_i` with the weights of the right inputs.
pub open spec fn sum_right(f: Flattened, g: Seq<int>) -> int {
    sum(f.k, |i: int| (f.yi[i] * at(f.wr, i)) * g[i])
}

/// The bases `H_i` with the weights of the left inputs and the outputs.
pub open spec fn sum_left_output(f: Flattened, h: Seq<int>, x: int) -> int {
    sum(f.k, |i: int| (f.yi[i] * (x * at(f.wl, i) + at(f.wo, i)) - 1) * h[i])
}

/// The bases `H_i` with the weights of the inputs.
pub open spec fn sum_input(f: Flattened, h: Seq<int>) -> int {
    sum(f.k, |i: int| (f.yi[i] * f.wv[i]) * h[i])
}

/// The bases `H_i`, times powers of the inverse of `y`, with coefficients `s`.
pub open spec fn sum_folded(f: Flattened, h: Seq<int>, s: Seq<int>) -> int {
    sum(f.k, |i: int| (f.yi[i] * s[i]) * h[i])
}

/// The part of `t(X)` that the weights alone determine.
pub open spec fn delta(f: Flattened) -> int {
    sum(f.wl.len() as int, |i: int| (f.wr[i] * f.yi[i]) * f.wl[i])
}

/// The inner product that the proof claims for the two aggregated vectors.
pub open spec fn claimed_product(s: Responses, c: Challenges) -> int {
    s.t_x + c.x_ipp * s.t_cross + c.x_ipp * c.x_ipp * s.tc_x
}

/// The commitment to the two aggregated vectors and to their inner product.
pub open spec fn committed(o: Opened, s: Responses, f: Flattened, c: Challenges, gens: GensView) -> int {
    c.x * o.a_i + c.x * c.x * o.a_o + c.x * c.x * c.x * o.s - s.e_blinding * gens.b_blinding + c.x * sum_right(
        f,
        gens.g,
    ) + sum_left_output(f, gens.h, c.x) + c.x_ipp * (o.v + c.x_prime * o.s_prime - s.ec_blinding
        * gens.b_blinding) + c.x_ipp * sum_input(f, gens.h) + claimed_product(s, c) * c.w_agg * gens.b
}

/// The verification equation of the inner product argument.
pub open spec fn eq_inner_product(
    o: Opened,
    s: Responses,
    f: Flattened,
    c: Challenges,
    gens: GensView,
    si: IpaScalars,
) -> int {
    dot(si.g, gens.g) + sum_folded(f, gens.h, si.h) + c.w_agg * si.q * gens.b - si.p * committed(
        o,
        s,
        f,
        c,
        gens,
    ) - dot(si.u, o.u)
}

/// `t_x` is the value at `x` of the polynomial that the `T_i` commit to.
pub open spec fn eq_polynomial(o: Opened, s: Responses, f: Flattened, c: Challenges, gens: GensView) -> int {
    let x = c.x;
    (x * x * (f.wc + delta(f)) - s.t_x) * gens.b - s.t_x_blinding * gens.b_blinding + x * o.t_1 + x * x * o.t_2
        + x * x * x * o.t_3 + x * x * x * x * o.t_4 + x * x * x * x * x * o.t_5 + x * x * x * x * x * x * o.t_6
}

/// `tc_x` is the blinded inner product of the inputs and their weights.
pub open spec fn eq_inputs(o: Opened, s: Responses, c: Challenges, gens: GensView) -> int {
    o.t_2 + c.x_prime * o.t_1_prime - s.tc_x * gens.b - s.tc_x_blinding * gens.b_blinding
}

/// The folding argument for the ciphertexts.
pub open spec fn eq_ciphertexts(
    o: Opened,
    s: Responses,
    c: Challenges,
    gens: GensView,
    st: Statement,
    se: EcpScalars,
) -> int {
    let n = st.c1.len() as int;
    let e = c.batch;
    dot(se.z.take(n), st.c1) + e * dot(se.z.take(n), st.c2) + se.p * (s.r_blinding * gens.b + e * s.r_blinding
        * gens.f - st.c_0 - e * st.c_1 - c.x_prime * o.s1_prime - e * c.x_prime * o.s2_prime) - dot(
        se.u,
        o.a1,
    )
}

/// The folding argument for the commitment to the inputs.
pub open spec fn eq_commitment(
    o: Opened,
    s: Responses,
    c: Challenges,
    gens: GensView,
    se: EcpScalars,
) -> int {
    dot(se.z, gens.g) + se.p * (s.ec_blinding * gens.b_blinding - o.v - c.x_prime * o.s_prime) - dot(
        se.u,
        o.a0,
    )
}

/// All five equations at once, with powers of `r` for weights.
pub open spec fn batched_equation(
    o: Opened,
    s: Responses,
    f: Flattened,
    c: Challenges,
    gens: GensView,
    st: Statement,
    si: IpaScalars,
    se: EcpScalars,
    r: int,
) -> int {
    eq_inner_product(o, s, f, c, gens, si) + r * eq_polynomial(o, s, f, c, gens) + r * r * eq_inputs(
        o,
        s,
        c,
        gens,
    ) + r * r * r * eq_ciphertexts(o, s, c, gens, st, se) + r * r * r * r * eq_commitment(
        o,
        s,
        c,
        gens,
        se,
    )
}

/// The value of the batched equation for a proof.
pub open spec fn check_value<G: Group>(
    p: R1CSProof<G>,
    v: G::Encoding,
    cs: Seq<Terms>,
    n: int,
    k: int,
    gens: GensView,
    st: Statement,
    log: Log,
    r: int,
) -> int {
    let q = G::Scalar::modulus();
    let c = p.challenges(log, k);
    batched_equation(
        p.opened(v),
        p.responses(),
        flattened(cs, n, k, c.y, c.z, q),
        c,
        gens,
        st,
        p.ipp_proof.scalars(p.log_ipp(log), k),
        p.ecp_batched.scalars(p.log_ecp(log, k), k),
        r,
    )
}

/// A verifier with `n` multipliers, `k` inputs and the commitment `v` accepts
/// the proof when it draws the weight `r`.
pub open spec fn accepts<G: Group>(
    p: R1CSProof<G>,
    v: G::Encoding,
    cs: Seq<Terms>,
    n: int,
    k: int,
    gens: GensView,
    st: Statement,
    log: Log,
    r: int,
) -> bool {
    &&& k > 0
    &&& p.ipp_proof.fits(k)
    &&& p.ipp_decodable()
    &&& p.ecp_batched.fits(k)
    &&& p.points_decodable()
    &&& is_element::<G>(v)
    &&& p.ecp_decodable()
    &&& md(check_value(p, v, cs, n, k, gens, st, log, r), G::Scalar::modulus()) == 0
}

/// `c` times a sum of ten terms.
proof fn lemma_distribute(
    c: int,
    a0: int,
    a1: int,
    a2: int,
    a3: int,
    a4: int,
    a5: int,
    a6: int,
    a7: int,
    a8: int,
    a9: int,
)
    by (nonlinear_arith)
    ensures
        c * (a0 + a1 + a2 + a3 + a4 + a5 + a6 + a7 + a8 + a9) == c * a0 + c * a1 + c * a2 + c * a3 + c * a4 + c
            * a5 + c * a6 + c * a7 + c * a8 + c * a9,
{
}

/// The coefficients of the inner product argument, collected by group
/// elements.
proof fn lemma_collect_inner_product(
    x: int,
    xp: int,
    xi: int,
    w: int,
    sp: int,
    sq: int,
    eb: int,
    ecb: int,
    ip: int,
    ai: int,
    ao: int,
    s: int,
    v: int,
    s_prime: int,
    b: int,
    bb: int,
    sw: int,
    sh2: int,
    sh3: int,
)
    ensures
        ((0 - x) * sp) * ai + (((0 - x) * x) * sp) * ao + ((((0 - x) * x) * x) * sp) * s + ((0 - xi) * sp) * v
            + (((0 - xi) * sp) * xp) * s_prime + (w * sq - (w * ip) * sp) * b + ((xi * ecb) * sp + eb * sp) * bb
            - (x * sp) * sw - sp * sh2 - (xi * sp) * sh3 == w * sq * b - sp * (x * ai + x * x * ao + x * x * x
            * s - eb * bb + x * sw + sh2 + xi * (v + xp * s_prime - ecb * bb) + xi * sh3 + ip * w * b),
{
    let p0 = x * ai;
    let p1 = x * x * ao;
    let p2 = x * x * x * s;
    let p3 = -(eb * bb);
    let p4 = x * sw;
    let p6 = xi * (v + xp * s_prime - ecb * bb);
    let p7 = xi * sh3;
    let p8 = ip * w * b;
    lemma_distribute(sp, p0, p1, p2, p3, p4, sh2, p6, p7, p8, 0);
    assert(sp * 0 == 0);
    assert(((0 - x) * sp) * ai == -(sp * p0)) by (nonlinear_arith)
        requires
            p0 == x * ai,
    ;
    assert((((0 - x) * x) * sp) * ao == -(sp * p1)) by (nonlinear_arith)
        requires
            p1 == x * x * ao,
    ;
    assert(((((0 - x) * x) * x) * sp) * s == -(sp * p2)) by (nonlinear_arith)
        requires
            p2 == x * x * x * s,
    ;
    assert((x * sp) * sw == sp * p4) by (nonlinear_arith)
        requires
            p4 == x * sw,
    ;
    assert((xi * sp) * sh3 == sp * p7) by (nonlinear_arith)
        requires
            p7 == xi * sh3,
    ;
    assert((w * sq - (w * ip) * sp) * b == w * sq * b - sp * p8) by (nonlinear_arith)
        requires
            p8 == ip * w * b,
    ;
    let (p61, p62) = (xp * s_prime, -(ecb * bb));
    lemma_distribute(xi, v, p61, p62, 0, 0, 0, 0, 0, 0, 0);
    assert(xi * 0 == 0);
    lemma_distribute(sp, xi * v, xi * p61, xi * p62, 0, 0, 0, 0, 0, 0, 0);
    assert(sp * (xi * v) == (xi * sp) * v) by (nonlinear_arith);
    assert(sp * (xi * p61) == ((xi * sp) * xp) * s_prime) by (nonlinear_arith)
        requires
            p61 == xp * s_prime,
    ;
    assert(sp * (xi * p62) == -(((xi * ecb) * sp) * bb)) by (nonlinear_arith)
        requires
            p62 == -(ecb * bb),
    ;
    assert(((0 - xi) * sp) * v == -((xi * sp) * v)) by (nonlinear_arith);
    assert((((0 - xi) * sp) * xp) * s_prime == -(((xi * sp) * xp) * s_prime)) by (nonlinear_arith);
    assert(((xi * ecb) * sp + eb * sp) * bb == ((xi * ecb) * sp) * bb - sp * p3) by (nonlinear_arith)
        requires
            p3 == -(eb * bb),
    ;
}

/// The coefficients of the polynomial check, collected by group elements.
proof fn lemma_collect_polynomial(
    x: int,
    r: int,
    wcd: int,
    tx: int,
    txb: int,
    b: int,
    bb: int,
    t1: int,
    t2: int,
    t3: int,
    t4: int,
    t5: int,
    t6: int,
)
    ensures
        (r * ((x * x) * wcd - tx)) * b - (r * txb) * bb + (r * x) * t1 + (r * (x * x)) * t2 + ((r * (x * x)) * x)
            * t3 + ((r * (x * x)) * (x * x)) * t4 + ((r * (x * x)) * (x * (x * x))) * t5 + (((r * (x * x)) * (x
            * x)) * (x * x)) * t6 == r * ((x * x * wcd - tx) * b - txb * bb + x * t1 + x * x * t2 + x * x * x
            * t3 + x * x * x * x * t4 + x * x * x * x * x * t5 + x * x * x * x * x * x * t6),
{
    let p0 = (x * x * wcd - tx) * b;
    let p1 = -(txb * bb);
    let p2 = x * t1;
    let p3 = x * x * t2;
    let p4 = x * x * x * t3;
    let p5 = x * x * x * x * t4;
    let p6 = x * x * x * x * x * t5;
    let p7 = x * x * x * x * x * x * t6;
    lemma_distribute(r, p0, p1, p2, p3, p4, p5, p6, p7, 0, 0);
    assert(r * 0 == 0);
    let k = (x * x) * wcd - tx;
    assert((r * k) * b == r * (k * b)) by (nonlinear_arith);
    assert(r * p1 == -((r * txb) * bb)) by (nonlinear_arith)
        requires
            p1 == -(txb * bb),
    ;
    assert(r * p2 == (r * x) * t1) by (nonlinear_arith)
        requires
            p2 == x * t1,
    ;
    assert(r * p3 == (r * (x * x)) * t2) by (nonlinear_arith)
        requires
            p3 == x * x * t2,
    ;
    assert(r * p4 == ((r * (x * x)) * x) * t3) by (nonlinear_arith)
        requires
            p4 == x * x * x * t3,
    ;
    assert(r * p5 == ((r * (x * x)) * (x * x)) * t4) by (nonlinear_arith)
        requires
            p5 == x * x * x * x * t4,
    ;
    assert(r * p6 == ((r * (x * x)) * (x * (x * x))) * t5) by (nonlinear_arith)
        requires
            p6 == x * x * x * x * x * t5,
    ;
    assert(r * p7 == (((r * (x * x)) * (x * x)) * (x * x)) * t6) by (nonlinear_arith)
        requires
            p7 == x * x * x * x * x * x * t6,
    ;
}

/// The coefficients of the check on the inputs, collected by group elements.
proof fn lemma_collect_inputs(r2: int, xp: int, tcx: int, tcxb: int, t2: int, t1p: int, b: int, bb: int)
    ensures
        (r2 * xp) * t1p + r2 * t2 - (r2 * tcx) * b - (r2 * tcxb) * bb == r2 * (t2 + xp * t1p - tcx * b - tcxb
            * bb),
{
    let p1 = xp * t1p;
    let p2 = -(tcx * b);
    let p3 = -(tcxb * bb);
    lemma_distribute(r2, t2, p1, p2, p3, 0, 0, 0, 0, 0, 0);
    assert(r2 * 0 == 0);
    assert(r2 * p1 == (r2 * xp) * t1p) by (nonlinear_arith)
        requires
            p1 == xp * t1p,
    ;
    assert(r2 * p2 == -((r2 * tcx) * b)) by (nonlinear_arith)
        requires
            p2 == -(tcx * b),
    ;
    assert(r2 * p3 == -((r2 * tcxb) * bb)) by (nonlinear_arith)
        requires
            p3 == -(tcxb * bb),
    ;
}

/// The coefficients of the check on the ciphertexts, collected by group
/// elements.
proof fn lemma_collect_ciphertexts(
    r3: int,
    xp: int,
    e: int,
    pe: int,
    rb: int,
    b: int,
    f: int,
    s1: int,
    s2: int,
    c0: int,
    c1: int,
    zc1: int,
    zc2: int,
    a1: int,
)
    ensures
        ((pe * r3) * rb) * b + (((pe * r3) * e) * rb) * f + ((r3 * xp) * (0 - pe)) * s1 + (((r3 * e) * xp) * (0
            - pe)) * s2 + (r3 * (0 - pe)) * c0 + ((r3 * e) * (0 - pe)) * c1 + r3 * zc1 + (r3 * e) * zc2 - r3
            * a1 == r3 * (zc1 + e * zc2 + pe * (rb * b + e * rb * f - c0 - e * c1 - xp * s1 - e * xp * s2) - a1),
{
    let p0 = rb * b;
    let p1 = e * rb * f;
    let p3 = -(e * c1);
    let p4 = -(xp * s1);
    let p5 = -(e * xp * s2);
    lemma_distribute(pe, p0, p1, -c0, p3, p4, p5, 0, 0, 0, 0);
    assert(pe * 0 == 0);
    let q1 = e * zc2;
    lemma_distribute(r3, zc1, q1, pe * p0, pe * p1, pe * -c0, pe * p3, pe * p4, pe * p5, -a1, 0);
    assert(r3 * 0 == 0);
    assert(r3 * q1 == (r3 * e) * zc2) by (nonlinear_arith)
        requires
            q1 == e * zc2,
    ;
    assert(r3 * (pe * p0) == ((pe * r3) * rb) * b) by (nonlinear_arith)
        requires
            p0 == rb * b,
    ;
    assert(r3 * (pe * p1) == (((pe * r3) * e) * rb) * f) by (nonlinear_arith)
        requires
            p1 == e * rb * f,
    ;
    assert(r3 * (pe * -c0) == (r3 * (0 - pe)) * c0) by (nonlinear_arith);
    assert(r3 * (pe * p3) == ((r3 * e) * (0 - pe)) * c1) by (nonlinear_arith)
        requires
            p3 == -(e * c1),
    ;
    assert(r3 * (pe * p4) == ((r3 * xp) * (0 - pe)) * s1) by (nonlinear_arith)
        requires
            p4 == -(xp * s1),
    ;
    assert(r3 * (pe * p5) == (((r3 * e) * xp) * (0 - pe)) * s2) by (nonlinear_arith)
        requires
            p5 == -(e * xp * s2),
    ;
    assert(r3 * -a1 == -(r3 * a1)) by (nonlinear_arith);
}

/// The coefficients of the check on the commitment, collected by group
/// elements.
proof fn lemma_collect_commitment(
    r4: int,
    xp: int,
    pe: int,
    ecb: int,
    bb: int,
    v: int,
    s_prime: int,
    sz: int,
    a0: int,
)
    ensures
        (r4 * (0 - pe)) * v + ((r4 * xp) * (0 - pe)) * s_prime + ((pe * r4) * ecb) * bb + r4 * sz - r4 * a0 == r4
            * (sz + pe * (ecb * bb - v - xp * s_prime) - a0),
{
    let p0 = ecb * bb;
    let p2 = -(xp * s_prime);
    lemma_distribute(pe, p0, -v, p2, 0, 0, 0, 0, 0, 0, 0);
    assert(pe * 0 == 0);
    lemma_distribute(r4, sz, pe * p0, pe * -v, pe * p2, -a0, 0, 0, 0, 0, 0);
    assert(r4 * 0 == 0);
    assert(r4 * (pe * p0) == ((pe * r4) * ecb) * bb) by (nonlinear_arith)
        requires
            p0 == ecb * bb,
    ;
    assert(r4 * (pe * -v) == (r4 * (0 - pe)) * v) by (nonlinear_arith);
    assert(r4 * (pe * p2) == ((r4 * xp) * (0 - pe)) * s_prime) by (nonlinear_arith)
        requires
            p2 == -(xp * s_prime),
    ;
    assert(r4 * -a0 == -(r4 * a0)) by (nonlinear_arith);
}

/// The coefficient with which each single group element goes into the
/// batched equation.
pub struct Coefficients {
    pub a_i: int,
    pub a_o: int,
    pub s: int,
    pub v: int,
    pub s_prime: int,
    pub b: int,
    pub b_blinding: int,
    pub f: int,
    pub t_1_prime: int,
    pub t_2_input: int,
    pub t_1: int,
    pub t_2: int,
    pub t_3: int,
    pub t_4: int,
    pub t_5: int,
    pub t_6: int,
    pub s1_prime: int,
    pub s2_prime: int,
    pub c_0: int,
    pub c_1: int,
}

/// The coefficients, where `sp`, `sq` come from the inner product argument
/// and `pe` from the argument on the ciphertexts.
pub open spec fn coefficients(
    s: Responses,
    c: Challenges,
    wcd: int,
    sp: int,
    sq: int,
    pe: int,
    r: int,
) -> Coefficients {
    let (x, xp, xi, w, e) = (c.x, c.x_prime, c.x_ipp, c.w_agg, c.batch);
    let ip = claimed_product(s, c);
    let r2 = r * r;
    let r3 = r2 * r;
    let r4 = r3 * r;
    Coefficients {
        a_i: (0 - x) * sp,
        a_o: ((0 - x) * x) * sp,
        s: (((0 - x) * x) * x) * sp,
        v: ((0 - xi) * sp) + (r4 * (0 - pe)),
        s_prime: (((0 - xi) * sp) * xp) + ((r4 * xp) * (0 - pe)),
        b: (((w * sq - (w * ip) * sp) + r * ((x * x) * wcd - s.t_x)) - r2 * s.tc_x) + (pe * r3) * s.r_blinding,
        b_blinding: ((((xi * s.ec_blinding) * sp + s.e_blinding * sp) - r2 * s.tc_x_blinding) - r
            * s.t_x_blinding) + (pe * r4) * s.ec_blinding,
        f: ((pe * r3) * e) * s.r_blinding,
        t_1_prime: r2 * xp,
        t_2_input: r2,
        t_1: r * x,
        t_2: r * (x * x),
        t_3: (r * (x * x)) * x,
        t_4: (r * (x * x)) * (x * x),
        t_5: (r * (x * x)) * (x * (x * x)),
        t_6: ((r * (x * x)) * (x * x)) * (x * x),
        s1_prime: (r3 * xp) * (0 - pe),
        s2_prime: ((r3 * e) * xp) * (0 - pe),
        c_0: r3 * (0 - pe),
        c_1: (r3 * e) * (0 - pe),
    }
}

/// The single group elements with their coefficients.
pub open spec fn single_terms(k: Coefficients, o: Opened, gens: GensView, st: Statement) -> int {
    k.a_i * o.a_i + k.a_o * o.a_o + k.s * o.s + k.v * o.v + k.s_prime * o.s_prime + k.b * gens.b + k.b_blinding
        * gens.b_blinding + k.f * gens.f + k.t_1_prime * o.t_1_prime + k.t_2_input * o.t_2 + k.t_1 * o.t_1 + k.t_2
        * o.t_2 + k.t_3 * o.t_3 + k.t_4 * o.t_4 + k.t_5 * o.t_5 + k.t_6 * o.t_6 + k.s1_prime * o.s1_prime
        + k.s2_prime * o.s2_prime + k.c_0 * st.c_0 + k.c_1 * st.c_1
}

/// The batched equation, collected by group elements.
pub proof fn lemma_collect(
    o: Opened,
    s: Responses,
    f: Flattened,
    c: Challenges,
    gens: GensView,
    st: Statement,
    si: IpaScalars,
    se: EcpScalars,
    r: int,
)
    ensures
        ({
            let k = coefficients(s, c, f.wc + delta(f), si.p, si.q, se.p, r);
            let r2 = r * r;
            let r3 = r2 * r;
            let r4 = r3 * r;
            let n = st.c1.len() as int;
            single_terms(k, o, gens, st) + (dot(si.g, gens.g) - (c.x * si.p) * sum_right(f, gens.g) + r4 * dot(
                se.z,
                gens.g,
            )) + (sum_folded(f, gens.h, si.h) - si.p * sum_left_output(f, gens.h, c.x) - (c.x_ipp * si.p)
                * sum_input(f, gens.h)) - dot(si.u, o.u) + r3 * dot(se.z.take(n), st.c1) + (r3 * c.batch) * dot(
                se.z.take(n),
                st.c2,
            ) - r4 * dot(se.u, o.a0) - r3 * dot(se.u, o.a1) == batched_equation(
                o,
                s,
                f,
                c,
                gens,
                st,
                si,
                se,
                r,
            )
        }),
{
    let (x, xp, xi, w, e) = (c.x, c.x_prime, c.x_ipp, c.w_agg, c.batch);
    let (sp, sq, pe) = (si.p, si.q, se.p);
    let ip = claimed_product(s, c);
    let wcd = f.wc + delta(f);
    let r2 = r * r;
    let r3 = r2 * r;
    let r4 = r3 * r;
    let n = st.c1.len() as int;
    let k = coefficients(s, c, wcd, sp, sq, pe, r);
    let (sw, sh2, sh3) = (sum_right(f, gens.g), sum_left_output(f, gens.h, x), sum_input(f, gens.h));
    lemma_collect_inner_product(
        x,
        xp,
        xi,
        w,
        sp,
        sq,
        s.e_blinding,
        s.ec_blinding,
        ip,
        o.a_i,
        o.a_o,
        o.s,
        o.v,
        o.s_prime,
        gens.b,
        gens.b_blinding,
        sw,
        sh2,
        sh3,
    );
    lemma_collect_polynomial(
        x,
        r,
        wcd,
        s.t_x,
        s.t_x_blinding,
        gens.b,
        gens.b_blinding,
        o.t_1,
        o.t_2,
        o.t_3,
        o.t_4,
        o.t_5,
        o.t_6,
    );
    lemma_collect_inputs(
        r2,
        xp,
        s.tc_x,
        s.tc_x_blinding,
        o.t_2,
        o.t_1_prime,
        gens.b,
        gens.b_blinding,
    );
    lemma_collect_ciphertexts(
        r3,
        xp,
        e,
        pe,
        s.r_blinding,
        gens.b,
        gens.f,
        o.s1_prime,
        o.s2_prime,
        st.c_0,
        st.c_1,
        dot(se.z.take(n), st.c1),
        dot(se.z.take(n), st.c2),
        dot(se.u, o.a1),
    );
    lemma_collect_commitment(
        r4,
        xp,
        pe,
        s.ec_blinding,
        gens.b_blinding,
        o.v,
        o.s_prime,
        dot(se.z, gens.g),
        dot(se.u, o.a0),
    );
    // Elements that occur in several equations.
    let (v1, v2) = ((0 - xi) * sp, r4 * (0 - pe));
    assert((v1 + v2) * o.v == v1 * o.v + v2 * o.v) by (nonlinear_arith);
    let (p1, p2) = (((0 - xi) * sp) * xp, (r4 * xp) * (0 - pe));
    assert((p1 + p2) * o.s_prime == p1 * o.s_prime + p2 * o.s_prime) by (nonlinear_arith);
    let (b1, b2, b3, b4) = (
        w * sq - (w * ip) * sp,
        r * ((x * x) * wcd - s.t_x),
        r2 * s.tc_x,
        (pe * r3) * s.r_blinding,
    );
    let b = gens.b;
    assert((((b1 + b2) - b3) + b4) * b == b1 * b + b2 * b - b3 * b + b4 * b) by (nonlinear_arith);
    let (d1, d2, d3, d4) = (
        (xi * s.ec_blinding) * sp + s.e_blinding * sp,
        r2 * s.tc_x_blinding,
        r * s.t_x_blinding,
        (pe * r4) * s.ec_blinding,
    );
    let bb = gens.b_blinding;
    assert((((d1 - d2) - d3) + d4) * bb == d1 * bb - d2 * bb - d3 * bb + d4 * bb) by (nonlinear_arith);
}

} // verus!
