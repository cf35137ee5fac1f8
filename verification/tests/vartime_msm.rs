//! Multiscalar multiplication over P-256.

use ark_ec::CurveGroup;
use ark_ff::{BigInteger, PrimeField};
use ark_serialize::CanonicalSerialize;
use ark_std::UniformRand;
use maya::group::Field;
use maya::p256::curve::{Affine, Projective};
use maya::p256::field::Fr;
use maya::p256::vartime_msm::{compute_naf_w5, straus_naf5, vartime_multiscalar_mul, STRAUS_THRESHOLD};
use std::time::Instant;

fn random_scalar(rng: &mut impl ark_std::rand::Rng) -> Fr {
    let bytes = ark_secp256r1::Fr::rand(rng).into_bigint().to_bytes_le();
    Fr::deserialize_compressed(&bytes).unwrap()
}

fn random_point(rng: &mut impl ark_std::rand::Rng) -> Affine {
    let mut buf = Vec::new();
    ark_secp256r1::Projective::rand(rng).into_affine().serialize_compressed(&mut buf).unwrap();
    Affine::deserialize_compressed(&buf).unwrap()
}

/// Verify that straus_naf5 matches arkworks Pippenger for several widths < 190.
#[test]
fn test_straus_matches_pippenger() {
    println!("\n test_straus_matches_pippenger");

    let mut rng = ark_std::test_rng();

    for &n in &[1usize, 2, 4, 8, 16, 64, 189] {
        let scalars: Vec<_> = (0..n).map(|_| random_scalar(&mut rng)).collect();
        let bases: Vec<_> = (0..n).map(|_| random_point(&mut rng)).collect();

        let result_straus = straus_naf5(&scalars, &bases);
        let result_pippenger = Projective::multi_scalar_mul(&bases, &scalars);

        assert_eq!(result_straus, result_pippenger, "Straus vs Pippenger mismatch at n={}", n);
    }
}

/// Verify the dispatcher correctly routes small inputs to Straus and large to Pippenger.
#[test]
fn test_dispatch_routes_correctly() {
    println!("\n test_dispatch_routes_correctly");

    let mut rng = ark_std::test_rng();

    let n_small = 10usize;
    let scalars_s: Vec<_> = (0..n_small).map(|_| random_scalar(&mut rng)).collect();
    let bases_s: Vec<_> = (0..n_small).map(|_| random_point(&mut rng)).collect();
    let r_straus = vartime_multiscalar_mul(&scalars_s, &bases_s);
    let r_pip = Projective::multi_scalar_mul(&bases_s, &scalars_s);
    assert_eq!(r_straus, r_pip, "dispatch small mismatch");

    let n_large = 200usize;
    let scalars_l: Vec<_> = (0..n_large).map(|_| random_scalar(&mut rng)).collect();
    let bases_l: Vec<_> = (0..n_large).map(|_| random_point(&mut rng)).collect();
    let r_disp = vartime_multiscalar_mul(&scalars_l, &bases_l);
    let r_pip2 = Projective::multi_scalar_mul(&bases_l, &scalars_l);
    assert_eq!(r_disp, r_pip2, "dispatch large mismatch");
}

fn time_fn_ns(iters: u32, mut f: impl FnMut()) -> u64 {
    let t = Instant::now();
    for _ in 0..iters {
        f();
    }
    t.elapsed().as_nanos() as u64 / iters as u64
}

#[test]
fn test_straus_latency_vs_pippenger() {
    let mut rng = ark_std::test_rng();

    println!("\n test_straus_latency_vs_pippenger");
    println!("  {:>5}  {:>12}  {:>12}  {:>10}", "n", "Straus (us)", "Pippenger (us)", "Speedup");
    println!("  {}", "-".repeat(46));

    for &n in &[1usize, 2, 3, 4, 7, 8, 16, 32, 64, 128, 189, 65536] {
        let scalars: Vec<_> = (0..n).map(|_| random_scalar(&mut rng)).collect();
        let bases: Vec<_> = (0..n).map(|_| random_point(&mut rng)).collect();

        let mut rs = Projective::zero();
        let straus_ns = time_fn_ns(1, || {
            rs = straus_naf5(&scalars, &bases);
        });
        let mut rp = Projective::zero();
        let pip_ns = time_fn_ns(1, || {
            rp = Projective::multi_scalar_mul(&bases, &scalars);
        });
        let speedup = pip_ns as f64 / straus_ns as f64;

        println!(
            "  {:>5}  {:>12.1}  {:>12.1}  {:>9.2} times",
            n,
            straus_ns as f64 / 1_000.0,
            pip_ns as f64 / 1_000.0,
            speedup,
        );

        // Correctness check
        assert_eq!(rs, rp, "mismatch at n={}", n);
    }
    println!();
}

#[test]
fn test_straus_phase_timing_n4() {
    println!("\n test_straus_phase_timing_n4");

    let mut rng = ark_std::test_rng();
    let n = 4usize;
    let scalars: Vec<Fr> = (0..n).map(|_| random_scalar(&mut rng)).collect();
    let bases: Vec<Affine> = (0..n).map(|_| random_point(&mut rng)).collect();

    let iters = 5_000u32;

    let naf_ns = time_fn_ns(iters, || {
        let _: Vec<[i8; 257]> = scalars.iter().map(|s| compute_naf_w5(s)).collect();
    });

    let build = || {
        let mut proj: Vec<Projective> = Vec::with_capacity(n * 8);
        for base in &bases {
            let p = base.into_group();
            let p2 = p.double();
            let mut cur = p;
            proj.push(cur);
            for _ in 1..8 {
                cur = cur.add_point(p2);
                proj.push(cur);
            }
        }
        Projective::normalize_batch(&proj)
    };
    let table_ns = time_fn_ns(iters, || {
        let _ = build();
    });

    let nafs: Vec<[i8; 257]> = scalars.iter().map(|s| compute_naf_w5(s)).collect();
    let aff = build();

    let mut result = Projective::zero();
    let loop_ns = time_fn_ns(iters, || {
        result = Projective::zero();
        for i in (0..257).rev() {
            result = result.double();
            for j in 0..n {
                let digit = nafs[j][i];
                if digit != 0 {
                    let idx = (digit.unsigned_abs() as usize - 1) / 2;
                    let entry = aff[j * 8 + idx];
                    if digit > 0 {
                        result = result.add_affine(entry);
                    } else {
                        result = result.sub_affine(entry);
                    }
                }
            }
        }
    });
    assert_eq!(result, straus_naf5(&scalars, &bases));

    let total_ns = naf_ns + table_ns + loop_ns;

    println!();
    println!("  straus_naf5 v2 phase breakdown (n={}, {} iters):", n, iters);
    println!(
        "    NAF computation:  {:>8.1} us  ({:4.1}%)",
        naf_ns as f64 / 1e3,
        naf_ns as f64 / total_ns as f64 * 100.0
    );
    println!(
        "    Table build+norm: {:>8.1} us  ({:4.1}%)",
        table_ns as f64 / 1e3,
        table_ns as f64 / total_ns as f64 * 100.0
    );
    println!(
        "    Main eval loop:   {:>8.1} us  ({:4.1}%)",
        loop_ns as f64 / 1e3,
        loop_ns as f64 / total_ns as f64 * 100.0
    );
    println!("    Total (phases):   {:>8.1} us", total_ns as f64 / 1e3);
    println!();

    let pip_ns = time_fn_ns(5_000, || {
        let _ = Projective::multi_scalar_mul(&bases, &scalars);
    });
    println!("    Pippenger (n=4):  {:>8.1} us", pip_ns as f64 / 1e3);
    println!("    Straus speedup:   {:>8.2} times", pip_ns as f64 / total_ns as f64);
    println!();
}

/// The signed digits of small numbers.
#[test]
fn naf_digits() {
    let digits = |n: u64| compute_naf_w5(&Fr::from_u64(n));
    assert_eq!(digits(0), [0i8; 257]);
    let mut fifteen = [0i8; 257];
    fifteen[0] = 15;
    assert_eq!(digits(15), fifteen);
    let mut seventeen = [0i8; 257];
    seventeen[0] = -15;
    seventeen[5] = 1;
    assert_eq!(digits(17), seventeen);
    let mut sixteen = [0i8; 257];
    sixteen[4] = 1;
    assert_eq!(digits(16), sixteen);
    // The largest scalar.
    let last = Fr::one().negate();
    let naf = compute_naf_w5(&last);
    for (i, &d) in naf.iter().enumerate() {
        assert!(d == 0 || (d.unsigned_abs() <= 15 && d % 2 != 0));
        if d != 0 {
            for &e in naf[i + 1..].iter().take(4) {
                assert_eq!(e, 0);
            }
        }
    }
    let p = Projective::generator().into_affine();
    assert_eq!(straus_naf5(&[last], &[p]), Projective::zero().sub_affine(p));
}

/// Multiples of the generator, and the empty linear combination.
#[test]
fn small_linear_combinations() {
    assert_eq!(STRAUS_THRESHOLD, 190);
    assert!(vartime_multiscalar_mul(&[], &[]).is_zero());
    let g = Projective::generator();
    let two = g.double();
    let scalars = [Fr::from_u64(3), Fr::from_u64(5)];
    let bases = [g.into_affine(), two.into_affine()];
    let expected = g.mul_scalar(Fr::from_u64(13));
    assert_eq!(vartime_multiscalar_mul(&scalars, &bases), expected);
    assert_eq!(Projective::multi_scalar_mul(&bases, &scalars), expected);
    assert!(expected != g);
    // The order of the generator.
    let minus_one = Fr::one().negate();
    assert!(g.mul_scalar(minus_one).add_point(g).is_zero());
    assert!(!g.is_zero());
}
