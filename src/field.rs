use vstd::arithmetic::div_mod::*;
use vstd::prelude::*;

use ark_ff::{BigInteger384, Field, PrimeField};

verus! {

/// Number of 64-bit limbs of a field element.
pub const NUM_LIMBS: usize = 6;

/// The BLS12-381 base field modulus.
pub open spec fn modulus() -> nat {
    4002409555221667393417789825735904156556882819939007885332058136124031650490837864442687629129015664037894272559787nat
}

/// 2^64, the weight of one limb.
pub open spec fn limb_base() -> nat {
    0x1_0000_0000_0000_0000nat
}

/// The integer that six little-endian 64-bit limbs stand for.
pub open spec fn limbs_value(l: [u64; 6]) -> nat {
    l@[0] as nat + limb_base() * (l@[1] as nat + limb_base() * (l@[2] as nat + limb_base() * (
    l@[3] as nat + limb_base() * (l@[4] as nat + limb_base() * (l@[5] as nat)))))
}

/// Field addition on canonical representatives.
pub open spec fn fadd(a: nat, b: nat) -> nat {
    (a + b) % modulus()
}

/// Field subtraction on canonical representatives.
pub open spec fn fsub(a: nat, b: nat) -> nat {
    ((a + modulus()) - b) as nat % modulus()
}

/// Field multiplication on canonical representatives.
pub open spec fn fmul(a: nat, b: nat) -> nat {
    (a * b) % modulus()
}

/// Field negation on canonical representatives.
pub open spec fn fneg(a: nat) -> nat {
    (modulus() - a) as nat % modulus()
}

/// The multiplicative inverse of a non-zero canonical representative.
pub open spec fn finv(a: nat) -> nat {
    choose|i: nat| i < modulus() && fmul(i, a) == 1
}

/// Field division `a / b`.
pub open spec fn fdiv(a: nat, b: nat) -> nat {
    fmul(a, finv(b))
}

/// `a^e` in the field.
pub open spec fn fpow(a: nat, e: nat) -> nat
    decreases e,
{
    if e == 0 {
        1
    } else {
        fmul(a, fpow(a, (e - 1) as nat))
    }
}

/// Two integers are congruent modulo the field modulus.
pub open spec fn cong(u: int, w: int) -> bool {
    u % (modulus() as int) == w % (modulus() as int)
}

/// A canonical representative is the only one below the modulus in its class.
pub proof fn lemma_cong_canonical(u: nat, w: nat)
    requires
        u < modulus(),
        w < modulus(),
        cong(u as int, w as int),
    ensures
        u == w,
{
    lemma_small_mod(u, modulus());
    lemma_small_mod(w, modulus());
}

/// Products of congruent integers are congruent.
pub proof fn lemma_cong_mul(u1: int, u2: int, w1: int, w2: int)
    requires
        cong(u1, u2),
        cong(w1, w2),
    ensures
        cong(u1 * w1, u2 * w2),
{
    let p = modulus() as int;
    lemma_mul_mod_noop(u1, w1, p);
    lemma_mul_mod_noop(u2, w2, p);
}

/// Field addition respects congruence.
pub proof fn lemma_fadd_cong(a: nat, b: nat, ua: int, ub: int)
    requires
        cong(a as int, ua),
        cong(b as int, ub),
    ensures
        cong(fadd(a, b) as int, ua + ub),
{
    let p = modulus() as int;
    lemma_mod_twice((a + b) as int, p);
    lemma_add_mod_noop(a as int, b as int, p);
    lemma_add_mod_noop(ua, ub, p);
}

/// Field multiplication respects congruence.
pub proof fn lemma_fmul_cong(a: nat, b: nat, ua: int, ub: int)
    requires
        cong(a as int, ua),
        cong(b as int, ub),
    ensures
        cong(fmul(a, b) as int, ua * ub),
{
    let p = modulus() as int;
    lemma_mod_twice((a * b) as int, p);
    lemma_mul_mod_noop(a as int, b as int, p);
    lemma_mul_mod_noop(ua, ub, p);
}

/// Field subtraction respects congruence.
pub proof fn lemma_fsub_cong(a: nat, b: nat, ua: int, ub: int)
    requires
        b <= modulus(),
        cong(a as int, ua),
        cong(b as int, ub),
    ensures
        cong(fsub(a, b) as int, ua - ub),
{
    let p = modulus() as int;
    lemma_mod_twice((a + p) - b, p);
    lemma_mod_multiples_vanish(1, a - b, p);
    assert(p * 1 + (a - b) == (a + p) - b);
    lemma_sub_mod_noop(a as int, b as int, p);
    lemma_sub_mod_noop(ua, ub, p);
}

/// Field negation respects congruence.
pub proof fn lemma_fneg_cong(a: nat, ua: int)
    requires
        a <= modulus(),
        cong(a as int, ua),
    ensures
        cong(fneg(a) as int, -ua),
{
    let p = modulus() as int;
    lemma_mod_twice(p - a, p);
    lemma_mod_multiples_vanish(1, -a, p);
    assert(p * 1 + (-a) == p - a);
    lemma_sub_mod_noop(0, a as int, p);
    lemma_sub_mod_noop(0, ua, p);
}

/// An element whose product with `d` is one is unique.
pub proof fn lemma_inverse_unique(d: nat, i: nat, j: nat)
    requires
        i < modulus(),
        j < modulus(),
        fmul(i, d) == 1,
        fmul(j, d) == 1,
    ensures
        i == j,
{
    let p = modulus() as int;
    lemma_fmul_cong(i, d, i as int, d as int);
    lemma_fmul_cong(j, d, j as int, d as int);
    // i == i * (j * d) == (i * d) * j == j
    lemma_mul_mod_noop(i as int, (j * d) as int, p);
    lemma_mul_mod_noop((i * d) as int, j as int, p);
    assert(i * (j * d) == (i * d) * j) by (nonlinear_arith);
    lemma_small_mod(1, modulus());
    lemma_mul_mod_noop(i as int, 1, p);
    lemma_mul_mod_noop(1, j as int, p);
    lemma_cong_canonical(i, j);
}

/// A number below `2^64` and the one above it are recovered from
/// `low + 2^64 * high`.
proof fn lemma_split_limb(low1: nat, high1: nat, low2: nat, high2: nat)
    requires
        low1 < limb_base(),
        low2 < limb_base(),
        low1 + limb_base() * high1 == low2 + limb_base() * high2,
    ensures
        low1 == low2,
        high1 == high2,
{
    let b = limb_base() as int;
    let x = low1 + limb_base() * high1;
    assert(x == high1 * b + low1) by (nonlinear_arith)
        requires
            x == low1 + b * high1,
    ;
    assert(x == high2 * b + low2) by (nonlinear_arith)
        requires
            x == low2 + b * high2,
    ;
    lemma_fundamental_div_mod_converse(x as int, b, high1 as int, low1 as int);
    lemma_fundamental_div_mod_converse(x as int, b, high2 as int, low2 as int);
}

/// An integer has one representation in six 64-bit limbs: equal values
/// are equal bit for bit.
pub proof fn lemma_limbs_unique(a: [u64; 6], b: [u64; 6])
    requires
        limbs_value(a) == limbs_value(b),
    ensures
        a@ == b@,
{
    let base = limb_base();
    let a4 = a@[4] as nat + base * (a@[5] as nat);
    let a3 = a@[3] as nat + base * a4;
    let a2 = a@[2] as nat + base * a3;
    let a1 = a@[1] as nat + base * a2;
    let b4 = b@[4] as nat + base * (b@[5] as nat);
    let b3 = b@[3] as nat + base * b4;
    let b2 = b@[2] as nat + base * b3;
    let b1 = b@[1] as nat + base * b2;
    lemma_split_limb(a@[0] as nat, a1, b@[0] as nat, b1);
    lemma_split_limb(a@[1] as nat, a2, b@[1] as nat, b2);
    lemma_split_limb(a@[2] as nat, a3, b@[2] as nat, b3);
    lemma_split_limb(a@[3] as nat, a4, b@[3] as nat, b4);
    lemma_split_limb(a@[4] as nat, a@[5] as nat, b@[4] as nat, b@[5] as nat);
    assert(a@ =~= b@);
}

/// An element of the BLS12-381 base field, held as the six limbs of its
/// canonical integer representative.
#[derive(Clone, Copy, Debug, PartialEq, Eq)]
pub struct Fe {
    pub limbs: [u64; 6],
}

impl Fe {
    /// The integer this element stands for.
    pub open spec fn value(self) -> nat {
        limbs_value(self.limbs)
    }

    /// The limbs hold a canonical representative, below the modulus.
    pub open spec fn wf(self) -> bool {
        self.value() < modulus()
    }

    pub fn zero() -> (r: Fe)
        ensures
            r.wf(),
            r.value() == 0,
    {
        Fe { limbs: [0u64; 6] }
    }

    pub fn one() -> (r: Fe)
        ensures
            r.wf(),
            r.value() == 1,
    {
        Fe { limbs: [1u64, 0, 0, 0, 0, 0] }
    }
}

/// Relies on ark-ff's `From<BigInt>` and `PrimeField::into_bigint` for
/// BLS12-381's `Fq`: the sum of two field elements, in canonical form.
#[verifier::external_body]
pub(crate) fn add(a: Fe, b: Fe) -> (r: Fe)
    requires
        a.wf(),
        b.wf(),
    ensures
        r.wf(),
        r.value() == fadd(a.value(), b.value()),
{
    let x = ark_bls12_381::Fq::from(BigInteger384::new(a.limbs));
    let y = ark_bls12_381::Fq::from(BigInteger384::new(b.limbs));
    Fe { limbs: (x + y).into_bigint().0 }
}

/// Relies on ark-ff's subtraction in BLS12-381's `Fq`, converted as in `add`.
#[verifier::external_body]
pub(crate) fn sub(a: Fe, b: Fe) -> (r: Fe)
    requires
        a.wf(),
        b.wf(),
    ensures
        r.wf(),
        r.value() == fsub(a.value(), b.value()),
{
    let x = ark_bls12_381::Fq::from(BigInteger384::new(a.limbs));
    let y = ark_bls12_381::Fq::from(BigInteger384::new(b.limbs));
    Fe { limbs: (x - y).into_bigint().0 }
}

/// Relies on ark-ff's multiplication in BLS12-381's `Fq`, converted as in `add`.
#[verifier::external_body]
pub(crate) fn mul(a: Fe, b: Fe) -> (r: Fe)
    requires
        a.wf(),
        b.wf(),
    ensures
        r.wf(),
        r.value() == fmul(a.value(), b.value()),
{
    let x = ark_bls12_381::Fq::from(BigInteger384::new(a.limbs));
    let y = ark_bls12_381::Fq::from(BigInteger384::new(b.limbs));
    Fe { limbs: (x * y).into_bigint().0 }
}

/// Relies on ark-ff's negation in BLS12-381's `Fq`, converted as in `add`.
#[verifier::external_body]
pub(crate) fn neg(a: Fe) -> (r: Fe)
    requires
        a.wf(),
    ensures
        r.wf(),
        r.value() == fneg(a.value()),
{
    let x = ark_bls12_381::Fq::from(BigInteger384::new(a.limbs));
    Fe { limbs: (-x).into_bigint().0 }
}

/// Relies on ark-ff's `Field::inverse` for BLS12-381's `Fq`: `None` for zero,
/// otherwise the element whose product with `a` is one.
#[verifier::external_body]
pub(crate) fn inverse(a: Fe) -> (r: Option<Fe>)
    requires
        a.wf(),
    ensures
        r is Some <==> a.value() != 0,
        r matches Some(i) ==> i.wf() && fmul(i.value(), a.value()) == 1,
{
    let x = ark_bls12_381::Fq::from(BigInteger384::new(a.limbs));
    x.inverse().map(|i| Fe { limbs: i.into_bigint().0 })
}

/// Relies on ark-ff's `Field::pow` for BLS12-381's `Fq`: `a` raised to the
/// power `e`.
#[verifier::external_body]
pub(crate) fn pow(a: Fe, e: u64) -> (r: Fe)
    requires
        a.wf(),
    ensures
        r.wf(),
        r.value() == fpow(a.value(), e as nat),
{
    let x = ark_bls12_381::Fq::from(BigInteger384::new(a.limbs));
    Fe { limbs: x.pow([e]).into_bigint().0 }
}

/// Relies on ark-ff's `PrimeField::from_bigint` for BLS12-381's `Fq`, which
/// accepts exactly the integers below the modulus.
#[verifier::external_body]
pub(crate) fn is_canonical(l: [u64; 6]) -> (r: bool)
    ensures
        r == (limbs_value(l) < modulus()),
{
    ark_bls12_381::Fq::from_bigint(BigInteger384::new(l)).is_some()
}

} // verus!
