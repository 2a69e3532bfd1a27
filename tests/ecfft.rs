use ark_ff::{Field, PrimeField};
use ark_std::{rand::Rng, test_rng};
use ecfft::ecfft::{precompute, precompute_on_coset, EcFftPrecomputationStep};
use ecfft::error::EcFftError;
use ecfft::field::Fe;
use ecfft::isogeny::Isogeny;
use ecfft::poly::{evaluate, evaluate_at_points};

type F = ark_bls12_381::Fq;

fn fe(x: F) -> Fe {
    Fe { limbs: x.into_bigint().0 }
}

fn f(v: i64) -> F {
    if v < 0 {
        -F::from((-v) as u64)
    } else {
        F::from(v as u64)
    }
}

/// An 8-point coset `[a, a', b, b', -a, -a', -b, -b']` with `a = 1`, `b = 2`
/// and `a'^2 + b'^2 = 5`, folded by `x^2 - 5/2` (written over the constant
/// denominator 3) and then by `x^2`.
fn toy() -> (Vec<Fe>, Vec<Isogeny>) {
    let five = f(5);
    let mut ap = f(3);
    let bp = loop {
        if let Some(r) = (five - ap * ap).sqrt() {
            break r;
        }
        ap += F::ONE;
    };
    let (a, b) = (f(1), f(2));
    let coset: Vec<F> = vec![a, ap, b, bp, -a, -ap, -b, -bp];
    let c0 = -five / f(2);
    let k = f(3);
    let psi0 = Isogeny {
        numerator: [fe(k * c0), fe(F::ZERO), fe(k)],
        denominator: [fe(k), fe(F::ZERO)],
    };
    let psi1 = Isogeny {
        numerator: [fe(F::ZERO), fe(F::ZERO), fe(F::ONE)],
        denominator: [fe(F::ONE), fe(F::ZERO)],
    };
    (coset.into_iter().map(fe).collect(), vec![psi0, psi1])
}

fn random_coeffs(n: usize) -> Vec<Fe> {
    let mut rng = test_rng();
    (0..n).map(|_| fe(rng.gen())).collect()
}

#[test]
fn precompute_on_toy_cosets() {
    let (coset, isos) = toy();
    let p = precompute_on_coset(&coset, &isos).unwrap();
    assert_eq!(p.steps.len(), 2);
    assert_eq!(p.steps[0].s.len(), 4);
    assert_eq!(p.steps[1].s.len(), 2);
    let half: Vec<Fe> = coset.iter().step_by(2).copied().collect();
    let q = precompute_on_coset(&half, &isos).unwrap();
    assert_eq!(q.steps.len(), 1);
}

#[test]
fn extend_matches_direct_evaluation_at_every_level() {
    let (coset, isos) = toy();
    let p = precompute_on_coset(&coset, &isos).unwrap();
    for level in 0..p.steps.len() {
        let EcFftPrecomputationStep { s, s_prime, .. } = &p.steps[level];
        let coeffs = random_coeffs(s.len());
        let evals_s = evaluate_at_points(&coeffs, s);
        let evals_s_prime = evaluate_at_points(&coeffs, s_prime);
        assert_eq!(p.extend(&evals_s), Ok(evals_s_prime));
    }
}

#[test]
fn extend_of_single_value_is_identity() {
    let (coset, isos) = toy();
    let p = precompute_on_coset(&coset, &isos).unwrap();
    let v = vec![fe(f(42))];
    assert_eq!(p.extend(&v), Ok(v));
}

#[test]
fn extend_all_small_cubics() {
    // every polynomial of degree at most 3 with coefficients in {0, 1, 2}
    let (coset, isos) = toy();
    let p = precompute_on_coset(&coset, &isos).unwrap();
    let step = &p.steps[0];
    for code in 0..81u64 {
        let mut c = code;
        let mut coeffs = Vec::new();
        for _ in 0..4 {
            coeffs.push(fe(F::from(c % 3)));
            c /= 3;
        }
        let on_s: Vec<Fe> = step.s.iter().map(|x| evaluate(&coeffs, *x)).collect();
        let on_s_prime: Vec<Fe> = step.s_prime.iter().map(|x| evaluate(&coeffs, *x)).collect();
        assert_eq!(p.extend(&on_s).unwrap(), on_s_prime);
    }
}

#[test]
fn extend_rejects_wrong_length() {
    let (coset, isos) = toy();
    let p = precompute_on_coset(&coset, &isos).unwrap();
    assert_eq!(p.extend(&random_coeffs(3)), Err(EcFftError::LengthMismatch));
    assert_eq!(p.extend(&random_coeffs(8)), Err(EcFftError::LengthMismatch));
    assert_eq!(p.extend(&[]), Err(EcFftError::LengthMismatch));
}

#[test]
fn evaluate_over_domain_matches_brute_force() {
    let (coset, isos) = toy();
    let p = precompute(&coset, &isos).unwrap();
    assert_eq!(p.domains.len(), 4);
    for i in 0..p.domains.len() {
        let domain = &p.domains[i];
        assert_eq!(domain, &coset.iter().step_by(1 << i).copied().collect::<Vec<_>>());
        let coeffs = random_coeffs(domain.len());
        assert_eq!(p.evaluate_over_domain(&coeffs), Ok(evaluate_at_points(&coeffs, domain)));
    }
}

#[test]
fn constant_polynomial_over_domain() {
    let (coset, isos) = toy();
    let p = precompute(&coset, &isos).unwrap();
    let mut coeffs = vec![fe(F::ZERO); 8];
    coeffs[0] = fe(f(9));
    assert_eq!(p.evaluate_over_domain(&coeffs), Ok(vec![fe(f(9)); 8]));
    assert_eq!(p.evaluate_over_domain(&[fe(f(9))]), Ok(vec![fe(f(9))]));
}

#[test]
fn evaluate_over_domain_rejects_bad_lengths() {
    let (coset, isos) = toy();
    let p = precompute(&coset, &isos).unwrap();
    assert_eq!(p.evaluate_over_domain(&random_coeffs(16)), Err(EcFftError::DegreeTooLarge));
    assert_eq!(p.evaluate_over_domain(&random_coeffs(3)), Err(EcFftError::DegreeTooLarge));
}

#[test]
fn evaluation_is_deterministic() {
    let (coset, isos) = toy();
    let p = precompute(&coset, &isos).unwrap();
    let coeffs = random_coeffs(8);
    assert_eq!(p.evaluate_over_domain(&coeffs), p.evaluate_over_domain(&coeffs));
}

#[test]
fn precompute_rejects_bad_shapes() {
    let (coset, isos) = toy();
    assert!(matches!(precompute_on_coset(&coset[..6], &isos), Err(EcFftError::LengthMismatch)));
    assert!(matches!(precompute_on_coset(&coset, &isos[..1]), Err(EcFftError::LengthMismatch)));
    assert!(matches!(precompute(&coset[..6], &isos), Err(EcFftError::LengthMismatch)));
    assert!(matches!(precompute(&coset, &isos[..1]), Err(EcFftError::LengthMismatch)));
    assert!(matches!(precompute_on_coset(&coset[..1], &[]), Ok(_)));
}

#[test]
fn precompute_reports_degenerate_isogeny() {
    let (coset, mut isos) = toy();
    // denominator x - 1 vanishes at the first point
    isos[0].denominator = [fe(f(-1)), fe(f(1))];
    assert!(matches!(precompute_on_coset(&coset, &isos), Err(EcFftError::DivisionByZero)));
}
