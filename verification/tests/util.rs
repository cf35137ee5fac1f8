//! Scalars, polynomials and sums of powers.

use maya::errors::{MPCError, ProofError};
use maya::group::Field;
use maya::p256::field::Fr;
use maya::ristretto::scalar::Scalar;
use maya::util::{
    Poly2, Poly6, VecPoly1, VecPoly3, add_vec, exp_iter, exp_vec, inner_product, read32,
    scalar_exp_vartime, sum_of_powers, zero_vec,
};

fn all<F: Field>(s: &[u64]) -> Vec<F> {
    s.iter().map(|x| F::from_u64(*x)).collect()
}

fn bytes<F: Field>(s: &[F]) -> Vec<[u8; 32]> {
    s.iter().map(|x| x.to_bytes()).collect()
}

fn equal<F: Field>(a: &[F], b: &[u64]) {
    assert_eq!(bytes(a), bytes(&all::<F>(b)));
}

fn polynomials<F: Field>() {
    equal(&exp_vec(F::from_u64(2), 5), &[1, 2, 4, 8, 16]);
    equal(&exp_vec(F::from_u64(0), 3), &[1, 0, 0]);
    let mut iter = exp_iter(F::from_u64(3));
    assert_eq!(iter.next().unwrap().to_bytes(), F::one().to_bytes());
    assert_eq!(iter.next().unwrap().to_bytes(), F::from_u64(3).to_bytes());
    assert_eq!(iter.next().unwrap().to_bytes(), F::from_u64(9).to_bytes());
    equal(&[inner_product(&all::<F>(&[1, 2, 3, 4]), &all(&[2, 3, 4, 5]))], &[40]);
    equal(&[inner_product::<F>(&[], &[])], &[0]);
    equal(&add_vec(&all::<F>(&[1, 2]), &all(&[10, 20])), &[11, 22]);
    equal(&zero_vec::<F>(3), &[0, 0, 0]);
    // (1 + 3x, 2 + 4x) and (5 + 7x, 6 + 8x)
    let l = VecPoly1(all::<F>(&[1, 2]), all::<F>(&[3, 4]));
    let r = VecPoly1(all::<F>(&[5, 6]), all::<F>(&[7, 8]));
    let t = l.inner_product(&r);
    equal(&[t.0, t.1, t.2], &[17, 62, 53]);
    let x = F::from_u64(10);
    equal(&l.eval(x), &[31, 42]);
    equal(&r.eval(x), &[75, 86]);
    equal(&[t.eval(x)], &[31 * 75 + 42 * 86]);
    let zero = VecPoly1::<F>::zero(2);
    equal(&zero.eval(x), &[0, 0]);
    equal(&[Poly2(F::from_u64(1), F::from_u64(2), F::from_u64(3)).eval(x)], &[321]);
    // x + 2x^2 + 3x^3 and 4 + 5x + 6x^3
    let mut l = VecPoly3::<F>::zero(1);
    l.1 = all(&[1]);
    l.2 = all(&[2]);
    l.3 = all(&[3]);
    let mut r = VecPoly3::<F>::zero(1);
    r.0 = all(&[4]);
    r.1 = all(&[5]);
    r.3 = all(&[6]);
    let t = VecPoly3::special_inner_product(&l, &r);
    equal(&[t.t1, t.t2, t.t3, t.t4, t.t5, t.t6], &[4, 13, 22, 21, 12, 18]);
    equal(&l.eval(x), &[3210]);
    equal(&r.eval(x), &[6054]);
    equal(&[t.eval(x)], &[3210 * 6054]);
    let p = Poly6 {
        t1: F::from_u64(1),
        t2: F::from_u64(2),
        t3: F::from_u64(3),
        t4: F::from_u64(4),
        t5: F::from_u64(5),
        t6: F::from_u64(6),
    };
    equal(&[p.eval(x)], &[6543210]);
}

#[test]
fn polynomials_over_ristretto() {
    polynomials::<Scalar>();
}

#[test]
fn polynomials_over_p256() {
    polynomials::<Fr>();
}

#[test]
fn powers() {
    let x = Scalar::from_u64(3);
    assert_eq!(scalar_exp_vartime(&x, 0).to_bytes(), Scalar::one().to_bytes());
    assert_eq!(scalar_exp_vartime(&x, 5).to_bytes(), Scalar::from_u64(243).to_bytes());
    assert_eq!(scalar_exp_vartime(&x, 13).to_bytes(), Scalar::from_u64(1594323).to_bytes());
    for (n, expected) in [(0usize, 0u64), (1, 1), (2, 4), (3, 13), (4, 40), (6, 364), (8, 3280)] {
        assert_eq!(sum_of_powers(&x, n).to_bytes(), Scalar::from_u64(expected).to_bytes());
    }
}

#[test]
fn field_operations() {
    fn check<F: Field>() {
        let a = F::from_u64(7);
        let b = F::from_u64(12);
        equal(&[a.plus(b), b.minus(a), a.times(b)], &[19, 5, 84]);
        equal(&[a.minus(b).plus(b), a.negate().plus(a)], &[7, 0]);
        equal(&[a.invert().times(a), F::zero().invert()], &[1, 0]);
        assert!(F::zero().is_zero() && !a.is_zero());
        let mut v = all::<F>(&[3, 5]);
        F::batch_invert(&mut v);
        equal(&[v[0].times(F::from_u64(3)), v[1].times(F::from_u64(5))], &[1, 1]);
        let mut wide = [0u8; 64];
        wide[0] = 9;
        equal(&[F::from_wide_bytes(&wide)], &[9]);
        // 2^256 as a residue.
        wide[0] = 0;
        wide[32] = 1;
        let two = F::from_u64(2);
        assert_eq!(F::from_wide_bytes(&wide).to_bytes(), scalar_exp_vartime(&two, 256).to_bytes());
        assert_eq!(F::from_canonical_bytes(a.to_bytes()).unwrap().to_bytes(), a.to_bytes());
        assert!(F::from_canonical_bytes([0xff; 32]).is_none());
        // The largest canonical number is -1, and the next is refused.
        let mut top = F::one().negate().to_bytes();
        assert!(F::from_canonical_bytes(top).is_some());
        top[0] += 1;
        assert!(F::from_canonical_bytes(top).is_none());
    }
    check::<Scalar>();
    check::<Fr>();
}

#[test]
fn first_32_bytes() {
    let data: Vec<u8> = (0..40).collect();
    let expected: Vec<u8> = (0..32).collect();
    assert_eq!(read32(&data).to_vec(), expected);
}

#[test]
fn errors_of_a_dealer() {
    assert_eq!(ProofError::from(MPCError::InvalidBitsize), ProofError::InvalidBitsize);
    assert_eq!(ProofError::from(MPCError::InvalidAggregation), ProofError::InvalidAggregation);
    assert_eq!(ProofError::from(MPCError::InvalidGeneratorsLength), ProofError::InvalidGeneratorsLength);
    for e in [
        MPCError::MaliciousDealer,
        MPCError::WrongNumBitCommitments,
        MPCError::WrongNumPolyCommitments,
        MPCError::WrongNumProofShares,
        MPCError::MalformedProofShares { bad_shares: vec![1, 4] },
    ] {
        assert_eq!(ProofError::from(e.clone()), ProofError::ProvingError(e));
    }
}
