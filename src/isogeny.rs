use vstd::prelude::*;

use crate::error::EcFftError;
use crate::field::{self, fadd, fdiv, finv, fmul, lemma_inverse_unique, modulus, Fe};

verus! {

/// The numerator `n0 + n1 x + n2 x^2` of a rational map at `x`.
pub open spec fn numerator_at(n: (nat, nat, nat), x: nat) -> nat {
    fadd(n.0, fadd(fmul(n.1, x), fmul(n.2, fmul(x, x))))
}

/// The denominator `d0 + d1 x` of a rational map at `x`.
pub open spec fn denominator_at(d: (nat, nat), x: nat) -> nat {
    fadd(d.0, fmul(d.1, x))
}

/// A degree-2 over degree-1 rational map, the fold between two cosets.
#[derive(Clone, Copy, Debug, PartialEq, Eq)]
pub struct Isogeny {
    pub numerator: [Fe; 3],
    pub denominator: [Fe; 2],
}

impl Isogeny {
    /// All coefficients are canonical field elements.
    pub open spec fn wf(&self) -> bool {
        self.numerator[0].wf() && self.numerator[1].wf() && self.numerator[2].wf()
            && self.denominator[0].wf() && self.denominator[1].wf()
    }

    /// The numerator coefficients as integers.
    pub open spec fn num(&self) -> (nat, nat, nat) {
        (self.numerator[0].value(), self.numerator[1].value(), self.numerator[2].value())
    }

    /// The denominator coefficients as integers.
    pub open spec fn den(&self) -> (nat, nat) {
        (self.denominator[0].value(), self.denominator[1].value())
    }

    /// The map's value at `x`, when its denominator there is not zero.
    pub open spec fn eval_spec(&self, x: nat) -> nat {
        fdiv(numerator_at(self.num(), x), denominator_at(self.den(), x))
    }

    /// Evaluates the map at `x`; fails when the denominator is zero there.
    pub fn eval(&self, x: Fe) -> (r: Result<Fe, EcFftError>)
        requires
            self.wf(),
            x.wf(),
        ensures
            r is Ok <==> denominator_at(self.den(), x.value()) != 0,
            r is Err ==> r == Err::<Fe, EcFftError>(EcFftError::DivisionByZero),
            r matches Ok(y) ==> y.wf() && y.value() == self.eval_spec(x.value()),
    {
        let n = self.numerator;
        let d = self.denominator;
        let xx = field::mul(x, x);
        let num = field::add(n[0], field::add(field::mul(n[1], x), field::mul(n[2], xx)));
        let den = field::add(d[0], field::mul(d[1], x));
        match field::inverse(den) {
            None => Err(EcFftError::DivisionByZero),
            Some(i) => {
                proof {
                    let dv = denominator_at(self.den(), x.value());
                    assert(i.value() < modulus() && fmul(i.value(), dv) == 1);
                    lemma_inverse_unique(dv, i.value(), finv(dv));
                }
                Ok(field::mul(num, i))
            },
        }
    }
}

} // verus!
