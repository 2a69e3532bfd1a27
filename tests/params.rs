use ark_ff::{Field, PrimeField};
use ecfft::bls12_381::{sub_coset, Bls12381Parameters};
use ecfft::error::EcFftError;
use ecfft::field::Fe;
use ecfft::isogeny::Isogeny;
use ecfft::poly::{evaluate, evaluate_at_points};
use ecfft::table::{parse_elements, parse_numbers};

type F = ark_bls12_381::Fq;

fn small(v: u64) -> Fe {
    Fe { limbs: [v, 0, 0, 0, 0, 0] }
}

fn fe(x: F) -> Fe {
    Fe { limbs: x.into_bigint().0 }
}

fn limbs_text(values: &[u64]) -> String {
    let mut s = String::new();
    for v in values {
        s.push_str(&format!("{} 0 0 0 0 0\n", v));
    }
    s
}

#[test]
fn parse_numbers_reads_whitespace_separated_decimals() {
    assert_eq!(parse_numbers(b"  1 22\t333\n4444\r\n"), Ok(vec![1, 22, 333, 4444]));
    assert_eq!(parse_numbers(b""), Ok(vec![]));
    assert_eq!(parse_numbers(b"18446744073709551615"), Ok(vec![u64::MAX]));
}

#[test]
fn parse_numbers_rejects_bad_input() {
    assert_eq!(parse_numbers(b"18446744073709551616"), Err(EcFftError::ParameterLoadError));
    assert_eq!(parse_numbers(b"12 1a"), Err(EcFftError::ParameterLoadError));
    assert_eq!(parse_numbers(b"-1"), Err(EcFftError::ParameterLoadError));
}

#[test]
fn coset_groups_six_limbs() {
    let text = "5 0 0 0 0 0 1 2 3 4 5 6";
    let c = Bls12381Parameters::coset(text.as_bytes()).unwrap();
    assert_eq!(c, vec![small(5), Fe { limbs: [1, 2, 3, 4, 5, 6] }]);
    assert_eq!(parse_elements(text.as_bytes()), Ok(c));
}

#[test]
fn coset_rejects_wrong_limb_count() {
    assert_eq!(Bls12381Parameters::coset(b"1 2 3 4 5 6 7"), Err(EcFftError::ParameterLoadError));
}

#[test]
fn coset_rejects_values_above_modulus() {
    let m = <F as PrimeField>::MODULUS.0;
    let text = format!("{} {} {} {} {} {}", m[0], m[1], m[2], m[3], m[4], m[5]);
    assert_eq!(Bls12381Parameters::coset(text.as_bytes()), Err(EcFftError::ParameterLoadError));
}

#[test]
fn isogenies_group_five_elements() {
    let text = limbs_text(&[1, 2, 3, 4, 5, 6, 7, 8, 9, 10]);
    let isos = Bls12381Parameters::isogenies(text.as_bytes()).unwrap();
    assert_eq!(isos.len(), 2);
    assert_eq!(isos[0].numerator, [small(1), small(2), small(3)]);
    assert_eq!(isos[0].denominator, [small(4), small(5)]);
    assert_eq!(isos[1].numerator, [small(6), small(7), small(8)]);
    assert_eq!(isos[1].denominator, [small(9), small(10)]);
}

#[test]
fn isogenies_reject_partial_group() {
    let text = limbs_text(&[1, 2, 3, 4]);
    assert_eq!(Bls12381Parameters::isogenies(text.as_bytes()), Err(EcFftError::ParameterLoadError));
}

#[test]
fn domain_constants() {
    assert_eq!(Bls12381Parameters::LOG_N, 15);
    assert_eq!(Bls12381Parameters::N, 1 << Bls12381Parameters::LOG_N);
}

#[test]
fn isogeny_evaluates_rational_map() {
    let iso = Isogeny { numerator: [small(1), small(2), small(3)], denominator: [small(1), small(1)] };
    // (1 + 2*2 + 3*4) / (1 + 2) = 17 / 3
    let y = iso.eval(small(2)).unwrap();
    assert_eq!(y, fe(F::from(17u64) * F::from(3u64).inverse().unwrap()));
    let exact = Isogeny { numerator: [small(0), small(0), small(1)], denominator: [small(0), small(1)] };
    assert_eq!(exact.eval(small(9)), Ok(small(9)));
}

#[test]
fn isogeny_zero_denominator_fails() {
    let iso = Isogeny { numerator: [small(1), small(2), small(3)], denominator: [small(2), small(1)] };
    let minus_two = fe(-F::from(2u64));
    assert_eq!(iso.eval(minus_two), Err(EcFftError::DivisionByZero));
}

#[test]
fn sub_coset_takes_every_power_of_two_step() {
    let c: Vec<Fe> = (0..8).map(small).collect();
    assert_eq!(sub_coset(&c, 0), c);
    assert_eq!(sub_coset(&c, 1), vec![small(0), small(2), small(4), small(6)]);
    assert_eq!(sub_coset(&c, 2), vec![small(0), small(4)]);
    assert_eq!(sub_coset(&c, 3), vec![small(0)]);
    assert_eq!(sub_coset(&c, 40), vec![small(0)]);
    assert_eq!(sub_coset(&[], 1), vec![]);
    let odd: Vec<Fe> = (0..5).map(small).collect();
    assert_eq!(sub_coset(&odd, 1), vec![small(0), small(2), small(4)]);
}

#[test]
fn evaluate_uses_horner() {
    let coeffs = [small(1), small(2), small(3)];
    assert_eq!(evaluate(&coeffs, small(2)), small(17));
    assert_eq!(evaluate(&[], small(2)), small(0));
}

#[test]
fn constant_polynomial_is_constant_everywhere() {
    let points: Vec<Fe> = (0..6).map(|v| small(v * 11)).collect();
    assert_eq!(evaluate_at_points(&[small(7)], &points), vec![small(7); 6]);
}

#[test]
fn evaluate_at_points_matches_field_arithmetic() {
    let coeffs = [fe(F::from(3u64)), fe(-F::from(1u64))];
    let points = [small(0), small(1), small(5)];
    let expected: Vec<Fe> = [0u64, 1, 5].iter().map(|&x| fe(F::from(3u64) - F::from(x))).collect();
    assert_eq!(evaluate_at_points(&coeffs, &points), expected);
    assert_eq!(evaluate_at_points(&coeffs, &points), evaluate_at_points(&coeffs, &points));
}
