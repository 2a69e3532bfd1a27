use vstd::arithmetic::power2::{lemma2_to64, lemma_pow2_strictly_increases, lemma_pow2_unfold, pow2};
use vstd::prelude::*;

use crate::error::EcFftError;
use crate::field::Fe;
use crate::isogeny::Isogeny;
use crate::table::{elements_ok, group_value, is_group, numbers, parse_elements, readable};

verus! {

/// Every `2^i`-th point of a coset, starting from the first: the coset of
/// the level `i` below it.
pub fn sub_coset(coset: &[Fe], i: usize) -> (r: Vec<Fe>)
    ensures
        r.len() * pow2(i as nat) >= coset.len(),
        r.len() == 0 || (r.len() - 1) * pow2(i as nat) < coset.len(),
        forall|k: int| 0 <= k < r.len() ==> r[k] == coset[k * pow2(i as nat)],
{
    let n = coset.len();
    let mut r: Vec<Fe> = Vec::new();
    if n == 0 {
        return r;
    }
    let mut stride: usize = 1;
    let mut j: usize = 0;
    proof {
        lemma2_to64();
    }
    while j < i && stride <= n / 2
        invariant
            0 <= j <= i,
            stride == pow2(j as nat),
            1 <= stride <= n,
        decreases i - j,
    {
        proof {
            lemma_pow2_unfold((j + 1) as nat);
        }
        stride = stride * 2;
        j += 1;
    }
    if j < i {
        proof {
            lemma_pow2_unfold((j + 1) as nat);
            if j + 1 < i {
                lemma_pow2_strictly_increases((j + 1) as nat, i as nat);
            }
            assert(1 * pow2(i as nat) >= n);
        }
        r.push(coset[0]);
        assert(0 * pow2(i as nat) == 0);
        return r;
    }
    let mut idx: usize = 0;
    let mut k: usize = 0;
    loop
        invariant
            n == coset.len(),
            stride == pow2(i as nat),
            1 <= stride <= n,
            idx == k * stride,
            k <= idx,
            idx < n,
            r.len() == k,
            forall|q: int| 0 <= q < k ==> r[q] == coset[q * pow2(i as nat)],
        decreases n - idx,
    {
        r.push(coset[idx]);
        k += 1;
        assert(idx + stride == k * stride) by (nonlinear_arith)
            requires
                idx == (k - 1) * stride,
        ;
        if stride >= n - idx {
            assert(r.len() * pow2(i as nat) >= coset.len());
            return r;
        }
        idx = idx + stride;
    }
}

/// Element `k` of a table of field elements is canonical and is the `k`-th
/// group of six limbs.
pub open spec fn is_element(e: Fe, s: Seq<u8>, k: int) -> bool {
    e.wf() && e.value() == group_value(numbers(s), k) && is_group(e, numbers(s), k)
}

/// The parameters for the BLS12-381 base field: a coset of `N = 2^LOG_N`
/// points and the `LOG_N - 1` isogenies that fold it level by level.
///
/// They were computed with the curve `E = EllipticCurve(F, [a, b])` with
/// `a, b = 0x287cc81c41f14f729fcbc12f57b2dd49bdcfc64938f9ad946c9fe5288aa3e9653670d336b09c058baad66ae717c1df7, 0x33f44f9b6fd7ba0080f0ad4843e076da70b11e6846d41e19792a15a4920e2294f9c971db67257eefea71c70514c6e54`,
/// whose order is `2^15` times a large prime.
pub struct Bls12381Parameters;

impl Bls12381Parameters {
    /// Log2 of the size of the coset.
    pub const LOG_N: usize = 15;

    /// Size of the coset.
    pub const N: usize = 32768;

    /// The coset, read from its table of limbs.
    pub fn coset(table: &[u8]) -> (r: Result<Vec<Fe>, EcFftError>)
        ensures
            r is Ok <==> readable(table@) && elements_ok(numbers(table@)),
            r is Err ==> r == Err::<Vec<Fe>, EcFftError>(EcFftError::ParameterLoadError),
            r matches Ok(v) ==> {
                &&& v.len() == numbers(table@).len() / 6
                &&& forall|k: int| 0 <= k < v.len() ==> #[trigger] is_element(v[k], table@, k)
            },
    {
        let r = parse_elements(table);
        proof {
            if r is Ok {
                let v = r->Ok_0;
                assert forall|k: int| 0 <= k < v.len() implies #[trigger] is_element(v[k], table@, k) by {
                    assert(v[k].value() == group_value(numbers(table@), k));
                }
            }
        }
        r
    }

    /// The isogenies, read from their table: five field elements each, the
    /// three numerator coefficients and then the two denominator ones.
    pub fn isogenies(table: &[u8]) -> (r: Result<Vec<Isogeny>, EcFftError>)
        ensures
            r is Ok <==> readable(table@) && elements_ok(numbers(table@))
                && (numbers(table@).len() / 6) % 5 == 0,
            r is Err ==> r == Err::<Vec<Isogeny>, EcFftError>(EcFftError::ParameterLoadError),
            r matches Ok(v) ==> {
                &&& v.len() == numbers(table@).len() / 30
                &&& forall|k: int|
                    0 <= k < v.len() ==> #[trigger] v[k].wf() && is_element(v[k].numerator[0], table@, 5 * k)
                        && is_element(v[k].numerator[1], table@, 5 * k + 1)
                        && is_element(v[k].numerator[2], table@, 5 * k + 2)
                        && is_element(v[k].denominator[0], table@, 5 * k + 3)
                        && is_element(v[k].denominator[1], table@, 5 * k + 4)
            },
    {
        let e = parse_elements(table)?;
        if e.len() % 5 != 0 {
            return Err(EcFftError::ParameterLoadError);
        }
        let count = e.len() / 5;
        let mut v: Vec<Isogeny> = Vec::new();
        let mut k: usize = 0;
        while k < count
            invariant
                count == e.len() / 5,
                e.len() % 5 == 0,
                e.len() == numbers(table@).len() / 6,
                forall|q: int| 0 <= q < e.len() ==> #[trigger] is_element(e[q], table@, q),
                0 <= k <= count,
                v.len() == k,
                forall|q: int|
                    0 <= q < k ==> #[trigger] v[q].wf() && is_element(v[q].numerator[0], table@, 5 * q)
                        && is_element(v[q].numerator[1], table@, 5 * q + 1)
                        && is_element(v[q].numerator[2], table@, 5 * q + 2)
                        && is_element(v[q].denominator[0], table@, 5 * q + 3)
                        && is_element(v[q].denominator[1], table@, 5 * q + 4),
            decreases count - k,
        {
            let b = 5 * k;
            let g = Isogeny {
                numerator: [e[b], e[b + 1], e[b + 2]],
                denominator: [e[b + 3], e[b + 4]],
            };
            proof {
                assert(is_element(e[b as int], table@, b as int));
                assert(is_element(e[b + 1], table@, b + 1));
                assert(is_element(e[b + 2], table@, b + 2));
                assert(is_element(e[b + 3], table@, b + 3));
                assert(is_element(e[b + 4], table@, b + 4));
                assert(g.numerator[0] == e[b as int] && g.numerator[1] == e[b + 1]);
                assert(g.numerator[2] == e[b + 2] && g.denominator[0] == e[b + 3]);
                assert(g.denominator[1] == e[b + 4]);
            }
            v.push(g);
            k += 1;
        }
        Ok(v)
    }
}

} // verus!
