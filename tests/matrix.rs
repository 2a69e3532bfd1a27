use ark_ff::{BigInteger384, PrimeField};
use ark_std::{rand::Rng, test_rng};
use ecfft::error::EcFftError;
use ecfft::field::Fe;
use ecfft::matrix::Matrix;

type F = ark_bls12_381::Fq;

fn fe(x: F) -> Fe {
    Fe { limbs: x.into_bigint().0 }
}

fn small(v: u64) -> Fe {
    Fe { limbs: [v, 0, 0, 0, 0, 0] }
}

fn ark(e: Fe) -> F {
    F::from_bigint(BigInteger384::new(e.limbs)).unwrap()
}

#[test]
fn test_inverse() {
    let mut rng = test_rng();
    for _ in 0..100 {
        let a: F = rng.gen();
        let b: F = rng.gen();
        let c: F = rng.gen();
        let d: F = rng.gen();
        let mat = Matrix([[fe(a), fe(b)], [fe(c), fe(d)]]);
        let mat_inv = mat.inverse().unwrap();
        let x: F = rng.gen();
        let y: F = rng.gen();
        let v = [fe(x), fe(y)];

        assert_eq!(v, mat_inv.multiply(mat.multiply(v)));
        assert_eq!(v, mat.multiply(mat_inv.multiply(v)));
    }
}

#[test]
fn multiply_small_values() {
    let m = Matrix([[small(1), small(2)], [small(3), small(4)]]);
    assert_eq!(m.multiply([small(5), small(6)]), [small(17), small(39)]);
}

#[test]
fn multiply_in_place_matches_multiply() {
    let m = Matrix([[small(1), small(2)], [small(3), small(4)]]);
    let mut x = small(5);
    let mut y = small(6);
    m.multiply_in_place(&mut x, &mut y);
    assert_eq!([x, y], [small(17), small(39)]);
}

#[test]
fn inverse_of_singular_matrix_fails() {
    let m = Matrix([[small(1), small(2)], [small(2), small(4)]]);
    assert_eq!(m.inverse(), Err(EcFftError::DivisionByZero));
    let z = Matrix([[small(0), small(0)], [small(0), small(0)]]);
    assert_eq!(z.inverse(), Err(EcFftError::DivisionByZero));
}

#[test]
fn inverse_has_closed_form() {
    // det = 1 * 4 - 2 * 3 = -2
    let m = Matrix([[small(1), small(2)], [small(3), small(4)]]);
    let inv = m.inverse().unwrap();
    let minus_two = -F::from(2u64);
    let expected = [
        [F::from(4u64) / minus_two, -F::from(2u64) / minus_two],
        [-F::from(3u64) / minus_two, F::from(1u64) / minus_two],
    ];
    for r in 0..2 {
        for c in 0..2 {
            assert_eq!(ark(inv.0[r][c]), expected[r][c]);
        }
    }
    assert_eq!(inv.multiply(m.multiply([small(7), small(9)])), [small(7), small(9)]);
}

#[test]
fn inverse_is_deterministic() {
    let m = Matrix([[small(3), small(1)], [small(4), small(1)]]);
    assert_eq!(m.inverse(), m.inverse());
}
