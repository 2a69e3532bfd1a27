use ark_ff::{BigInteger384, Field, PrimeField};
use ecfft::field::Fe;
use ecfft::matrix::Matrix;
use ecfft::poly::evaluate;

type F = ark_bls12_381::Fq;

fn small(v: u64) -> Fe {
    Fe { limbs: [v, 0, 0, 0, 0, 0] }
}

fn fe(x: F) -> Fe {
    Fe { limbs: x.into_bigint().0 }
}

fn ark(e: Fe) -> F {
    F::from_bigint(BigInteger384::new(e.limbs)).unwrap()
}

#[test]
fn field_operations_on_small_values() {
    // 2 + 3 x at x = 4
    assert_eq!(evaluate(&[small(2), small(3)], small(4)), small(14));
    let m = Matrix([[small(6), small(0)], [small(0), small(1)]]);
    assert_eq!(m.multiply([small(7), small(8)]), [small(42), small(8)]);
}

#[test]
fn field_wraps_around_the_modulus() {
    let minus_one = fe(-F::ONE);
    let mut limbs = <F as PrimeField>::MODULUS.0;
    limbs[0] -= 1;
    assert_eq!(minus_one.limbs, limbs);
    // -1 + x at x = 1
    assert_eq!(evaluate(&[minus_one, small(1)], small(1)), small(0));
    // (-1) * (-1)
    assert_eq!(evaluate(&[small(0), minus_one], minus_one), small(1));
}

#[test]
fn inverse_of_diagonal_matrix() {
    let m = Matrix([[small(2), small(0)], [small(0), small(1)]]);
    let inv = m.inverse().unwrap();
    assert_eq!(ark(inv.0[0][0]), F::from(2u64).inverse().unwrap());
    assert_eq!(inv.0[0][1], small(0));
    assert_eq!(inv.0[1][0], small(0));
    assert_eq!(inv.0[1][1], small(1));
}

#[test]
fn zero_and_one() {
    assert_eq!(Fe::zero(), small(0));
    assert_eq!(Fe::one(), small(1));
    assert_eq!(ark(Fe::one()), F::ONE);
}
