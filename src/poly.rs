use vstd::prelude::*;

use crate::field::{self, fadd, fmul, modulus, Fe};

verus! {

/// The values of a sequence of field elements.
pub open spec fn values(c: Seq<Fe>) -> Seq<nat> {
    c.map_values(|e: Fe| e.value())
}

/// `c[0] + c[1] x + c[2] x^2 + ...` in the field, by Horner's rule.
pub open spec fn poly_eval(c: Seq<nat>, x: nat) -> nat
    decreases c.len(),
{
    if c.len() == 0 {
        0
    } else {
        fadd(c[0], fmul(x, poly_eval(c.drop_first(), x)))
    }
}

/// A constant polynomial takes its coefficient at every point.
pub proof fn lemma_constant_eval(c: nat, x: nat)
    requires
        c < modulus(),
    ensures
        poly_eval(seq![c], x) == c,
{
    assert(seq![c].drop_first() =~= Seq::<nat>::empty());
    assert(poly_eval(Seq::<nat>::empty(), x) == 0);
    assert(fmul(x, 0) == 0);
    vstd::arithmetic::div_mod::lemma_small_mod(c, modulus());
}

/// The value at `x` of the polynomial with coefficients `coeffs`, lowest
/// degree first.
pub fn evaluate(coeffs: &[Fe], x: Fe) -> (r: Fe)
    requires
        x.wf(),
        forall|k: int| 0 <= k < coeffs.len() ==> #[trigger] coeffs[k].wf(),
    ensures
        r.wf(),
        r.value() == poly_eval(values(coeffs@), x.value()),
{
    let mut acc = Fe::zero();
    let mut j: usize = coeffs.len();
    while j > 0
        invariant
            j <= coeffs.len(),
            x.wf(),
            acc.wf(),
            forall|k: int| 0 <= k < coeffs.len() ==> #[trigger] coeffs[k].wf(),
            acc.value() == poly_eval(values(coeffs@).subrange(j as int, coeffs.len() as int), x.value()),
        decreases j,
    {
        j -= 1;
        proof {
            let tail = values(coeffs@).subrange(j as int, coeffs.len() as int);
            assert(tail.drop_first() =~= values(coeffs@).subrange(j + 1, coeffs.len() as int));
        }
        acc = field::add(coeffs[j], field::mul(x, acc));
    }
    proof {
        assert(values(coeffs@).subrange(0, coeffs.len() as int) =~= values(coeffs@));
    }
    acc
}

/// The values of a polynomial at each point, in order: the direct
/// evaluation that faster methods are measured against.
pub fn evaluate_at_points(coeffs: &[Fe], points: &[Fe]) -> (r: Vec<Fe>)
    requires
        forall|k: int| 0 <= k < coeffs.len() ==> #[trigger] coeffs[k].wf(),
        forall|k: int| 0 <= k < points.len() ==> #[trigger] points[k].wf(),
    ensures
        r.len() == points.len(),
        forall|k: int|
            0 <= k < r.len() ==> #[trigger] r[k].wf() && r[k].value() == poly_eval(
                values(coeffs@),
                points[k].value(),
            ),
{
    let mut r: Vec<Fe> = Vec::new();
    let mut k: usize = 0;
    while k < points.len()
        invariant
            0 <= k <= points.len(),
            r.len() == k,
            forall|q: int| 0 <= q < coeffs.len() ==> #[trigger] coeffs[q].wf(),
            forall|q: int| 0 <= q < points.len() ==> #[trigger] points[q].wf(),
            forall|q: int|
                0 <= q < k ==> #[trigger] r[q].wf() && r[q].value() == poly_eval(
                    values(coeffs@),
                    points[q].value(),
                ),
        decreases points.len() - k,
    {
        r.push(evaluate(coeffs, points[k]));
        k += 1;
    }
    r
}

} // verus!
