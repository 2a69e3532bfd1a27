use vstd::prelude::*;

use crate::error::EcFftError;
use crate::field::{
    self, cong, fadd, fmul, fneg, fsub, lemma_cong_canonical, lemma_fadd_cong, lemma_fmul_cong,
    lemma_cong_mul, lemma_fneg_cong, lemma_fsub_cong, lemma_inverse_unique, lemma_limbs_unique, modulus, Fe,
};

verus! {

/// A 2x2 matrix as its entries `(a, b, c, d)`, row by row.
pub type Mat2 = (nat, nat, nat, nat);

/// The determinant `ad - bc`.
pub open spec fn det(m: Mat2) -> nat {
    fsub(fmul(m.0, m.3), fmul(m.1, m.2))
}

/// All four entries are canonical field elements.
pub open spec fn mat_canonical(m: Mat2) -> bool {
    m.0 < modulus() && m.1 < modulus() && m.2 < modulus() && m.3 < modulus()
}

/// The determinant has a multiplicative inverse.
pub open spec fn invertible(m: Mat2) -> bool {
    exists|i: nat| i < modulus() && fmul(i, det(m)) == 1
}

/// The inverse of the determinant of an invertible matrix.
pub open spec fn det_inverse(m: Mat2) -> nat {
    choose|i: nat| i < modulus() && fmul(i, det(m)) == 1
}

/// The closed-form inverse `det^-1 * [[d, -b], [-c, a]]`.
pub open spec fn mat_inverse(m: Mat2) -> Mat2 {
    let i = det_inverse(m);
    (fmul(m.3, i), fmul(fneg(m.1), i), fmul(fneg(m.2), i), fmul(m.0, i))
}

/// The matrix-vector product.
pub open spec fn apply(m: Mat2, v: (nat, nat)) -> (nat, nat) {
    (fadd(fmul(m.0, v.0), fmul(m.1, v.1)), fadd(fmul(m.2, v.0), fmul(m.3, v.1)))
}

/// The inverse of the determinant times `ad - bc`, taken over the integers,
/// is congruent to one.
proof fn lemma_det_cong(m: Mat2)
    requires
        mat_canonical(m),
        invertible(m),
    ensures
        cong(det_inverse(m) * (m.0 * m.3 - m.1 * m.2), 1),
{
    let i = det_inverse(m);
    lemma_fmul_cong(m.0, m.3, m.0 as int, m.3 as int);
    lemma_fmul_cong(m.1, m.2, m.1 as int, m.2 as int);
    lemma_fsub_cong(fmul(m.0, m.3), fmul(m.1, m.2), (m.0 * m.3) as int, (m.1 * m.2) as int);
    lemma_fmul_cong(i, det(m), i as int, m.0 * m.3 - m.1 * m.2);
}

/// The product with a matrix is congruent to the integer product with any
/// integers congruent to its entries.
proof fn lemma_apply_cong(m: Mat2, v: (nat, nat), ua: int, ub: int, uc: int, ud: int, ux: int, uy: int)
    requires
        cong(m.0 as int, ua),
        cong(m.1 as int, ub),
        cong(m.2 as int, uc),
        cong(m.3 as int, ud),
        cong(v.0 as int, ux),
        cong(v.1 as int, uy),
    ensures
        cong(apply(m, v).0 as int, ua * ux + ub * uy),
        cong(apply(m, v).1 as int, uc * ux + ud * uy),
{
    lemma_fmul_cong(m.0, v.0, ua, ux);
    lemma_fmul_cong(m.1, v.1, ub, uy);
    lemma_fadd_cong(fmul(m.0, v.0), fmul(m.1, v.1), ua * ux, ub * uy);
    lemma_fmul_cong(m.2, v.0, uc, ux);
    lemma_fmul_cong(m.3, v.1, ud, uy);
    lemma_fadd_cong(fmul(m.2, v.0), fmul(m.3, v.1), uc * ux, ud * uy);
}

/// The entries of the inverse are congruent to `i * d`, `-i * b`, `-i * c`
/// and `i * a`, with `i` the inverse of the determinant.
proof fn lemma_inverse_entries(m: Mat2)
    requires
        mat_canonical(m),
    ensures
        cong(mat_inverse(m).0 as int, (m.3 * det_inverse(m)) as int),
        cong(mat_inverse(m).1 as int, -m.1 * det_inverse(m)),
        cong(mat_inverse(m).2 as int, -m.2 * det_inverse(m)),
        cong(mat_inverse(m).3 as int, (m.0 * det_inverse(m)) as int),
{
    let i = det_inverse(m);
    lemma_fmul_cong(m.3, i, m.3 as int, i as int);
    lemma_fneg_cong(m.1, m.1 as int);
    lemma_fmul_cong(fneg(m.1), i, -m.1, i as int);
    lemma_fneg_cong(m.2, m.2 as int);
    lemma_fmul_cong(fneg(m.2), i, -m.2, i as int);
    lemma_fmul_cong(m.0, i, m.0 as int, i as int);
}

/// `u * (v + w) == u * v + u * w`.
proof fn lemma_distribute(u: int, v: int, w: int)
    ensures
        u * (v + w) == u * v + u * w,
{
    assert(u * (v + w) == u * v + u * w) by (nonlinear_arith);
}

/// `i * (ad - bc) * z == i * ad * z - i * bc * z`.
proof fn lemma_det_times(a: int, b: int, c: int, d: int, i: int, z: int)
    ensures
        i * (a * d - b * c) * z == i * (a * d) * z - i * (b * c) * z,
{
    assert(i * (a * d - b * c) * z == i * (a * d) * z - i * (b * c) * z) by (nonlinear_arith);
}

/// First row of the inverse after the matrix.
proof fn lemma_undo_row0(a: int, b: int, c: int, d: int, i: int, x: int, y: int)
    ensures
        (d * i) * (a * x + b * y) + (-b * i) * (c * x + d * y) == i * (a * d - b * c) * x,
{
    lemma_distribute(d * i, a * x, b * y);
    lemma_distribute(-b * i, c * x, d * y);
    lemma_det_times(a, b, c, d, i, x);
    assert((d * i) * (a * x) == i * (a * d) * x) by (nonlinear_arith);
    assert((-b * i) * (d * y) == -((d * i) * (b * y))) by (nonlinear_arith);
    assert((-b * i) * (c * x) == -(i * (b * c) * x)) by (nonlinear_arith);
}

/// Second row of the inverse after the matrix.
proof fn lemma_undo_row1(a: int, b: int, c: int, d: int, i: int, x: int, y: int)
    ensures
        (-c * i) * (a * x + b * y) + (a * i) * (c * x + d * y) == i * (a * d - b * c) * y,
{
    lemma_distribute(-c * i, a * x, b * y);
    lemma_distribute(a * i, c * x, d * y);
    lemma_det_times(a, b, c, d, i, y);
    assert((-c * i) * (b * y) == -(i * (b * c) * y)) by (nonlinear_arith);
    assert((a * i) * (c * x) == -((-c * i) * (a * x))) by (nonlinear_arith);
    assert((a * i) * (d * y) == i * (a * d) * y) by (nonlinear_arith);
}

/// First row of the matrix after the inverse.
proof fn lemma_redo_row0(a: int, b: int, c: int, d: int, i: int, x: int, y: int)
    ensures
        a * (d * i * x + (-b * i) * y) + b * ((-c * i) * x + a * i * y) == i * (a * d - b * c) * x,
{
    lemma_distribute(a, d * i * x, (-b * i) * y);
    lemma_distribute(b, (-c * i) * x, a * i * y);
    lemma_det_times(a, b, c, d, i, x);
    assert(a * (d * i * x) == i * (a * d) * x) by (nonlinear_arith);
    assert(a * ((-b * i) * y) == -(b * (a * i * y))) by (nonlinear_arith);
    assert(b * ((-c * i) * x) == -(i * (b * c) * x)) by (nonlinear_arith);
}

/// Second row of the matrix after the inverse.
proof fn lemma_redo_row1(a: int, b: int, c: int, d: int, i: int, x: int, y: int)
    ensures
        c * (d * i * x + (-b * i) * y) + d * ((-c * i) * x + a * i * y) == i * (a * d - b * c) * y,
{
    lemma_distribute(c, d * i * x, (-b * i) * y);
    lemma_distribute(d, (-c * i) * x, a * i * y);
    lemma_det_times(a, b, c, d, i, y);
    assert(c * (d * i * x) == -(d * ((-c * i) * x))) by (nonlinear_arith);
    assert(c * ((-b * i) * y) == -(i * (b * c) * y)) by (nonlinear_arith);
    assert(d * (a * i * y) == i * (a * d) * y) by (nonlinear_arith);
}

/// Applying an invertible matrix and then its inverse gives back the
/// vector, and so does applying the inverse first.
pub proof fn lemma_inverse_law(m: Mat2, v: (nat, nat))
    requires
        mat_canonical(m),
        invertible(m),
        v.0 < modulus(),
        v.1 < modulus(),
    ensures
        apply(mat_inverse(m), apply(m, v)) == v,
        apply(m, apply(mat_inverse(m), v)) == v,
{
    let (a, b, c, d) = (m.0 as int, m.1 as int, m.2 as int, m.3 as int);
    let (x, y) = (v.0 as int, v.1 as int);
    let i = det_inverse(m) as int;
    let e = i * (a * d - b * c);
    let mi = mat_inverse(m);
    lemma_det_cong(m);
    lemma_inverse_entries(m);
    lemma_cong_mul(e, 1, x, x);
    lemma_cong_mul(e, 1, y, y);

    let w = apply(m, v);
    lemma_apply_cong(m, v, a, b, c, d, x, y);
    let r = apply(mi, w);
    lemma_apply_cong(mi, w, d * i, -b * i, -c * i, a * i, a * x + b * y, c * x + d * y);
    lemma_undo_row0(a, b, c, d, i, x, y);
    lemma_undo_row1(a, b, c, d, i, x, y);
    lemma_cong_canonical(r.0, v.0);
    lemma_cong_canonical(r.1, v.1);

    let w2 = apply(mi, v);
    lemma_apply_cong(mi, v, d * i, -b * i, -c * i, a * i, x, y);
    let r2 = apply(m, w2);
    lemma_apply_cong(m, w2, a, b, c, d, d * i * x + (-b * i) * y, (-c * i) * x + a * i * y);
    lemma_redo_row0(a, b, c, d, i, x, y);
    lemma_redo_row1(a, b, c, d, i, x, y);
    lemma_cong_canonical(r2.0, v.0);
    lemma_cong_canonical(r2.1, v.1);
}

/// Two products of the same matrix and vector, as `multiply` gives them,
/// are identical bit for bit.
pub proof fn lemma_multiply_bit_identical(m: Matrix, v: [Fe; 2], r1: [Fe; 2], r2: [Fe; 2])
    requires
        r1[0].wf() && r1[1].wf() && (r1[0].value(), r1[1].value()) == apply(m@, (v[0].value(), v[1].value())),
        r2[0].wf() && r2[1].wf() && (r2[0].value(), r2[1].value()) == apply(m@, (v[0].value(), v[1].value())),
    ensures
        r1[0].limbs@ == r2[0].limbs@,
        r1[1].limbs@ == r2[1].limbs@,
{
    lemma_limbs_unique(r1[0].limbs, r2[0].limbs);
    lemma_limbs_unique(r1[1].limbs, r2[1].limbs);
}

/// 2x2 matrix of field elements.
#[derive(Clone, Copy, Debug, PartialEq, Eq)]
pub struct Matrix(pub [[Fe; 2]; 2]);

impl View for Matrix {
    type V = Mat2;

    open spec fn view(&self) -> Mat2 {
        (self.0[0][0].value(), self.0[0][1].value(), self.0[1][0].value(), self.0[1][1].value())
    }
}

impl Matrix {
    /// Every entry is a canonical field element.
    pub open spec fn wf(&self) -> bool {
        self.0[0][0].wf() && self.0[0][1].wf() && self.0[1][0].wf() && self.0[1][1].wf()
    }

    /// Inverse of the matrix; fails when the determinant is zero.
    pub fn inverse(&self) -> (r: Result<Matrix, EcFftError>)
        requires
            self.wf(),
        ensures
            r is Ok <==> det(self@) != 0,
            r is Err ==> r == Err::<Matrix, EcFftError>(EcFftError::DivisionByZero),
            r is Ok ==> invertible(self@),
            r matches Ok(mi) ==> mi.wf() && mi@ == mat_inverse(self@),
    {
        let (a, b, c, d) = (self.0[0][0], self.0[0][1], self.0[1][0], self.0[1][1]);
        let dt = field::sub(field::mul(a, d), field::mul(b, c));
        match field::inverse(dt) {
            None => Err(EcFftError::DivisionByZero),
            Some(i) => {
                proof {
                    assert(dt.value() == det(self@));
                    assert(i.value() < modulus() && fmul(i.value(), det(self@)) == 1);
                    assert(invertible(self@));
                    let j = det_inverse(self@);
                    lemma_inverse_unique(dt.value(), i.value(), j);
                }
                let nb = field::neg(b);
                let nc = field::neg(c);
                Ok(Matrix([[field::mul(d, i), field::mul(nb, i)], [field::mul(nc, i), field::mul(a, i)]]))
            },
        }
    }

    /// Multiply a vector of 2 field elements by the matrix.
    pub fn multiply(&self, v: [Fe; 2]) -> (r: [Fe; 2])
        requires
            self.wf(),
            v[0].wf(),
            v[1].wf(),
        ensures
            r[0].wf(),
            r[1].wf(),
            (r[0].value(), r[1].value()) == apply(self@, (v[0].value(), v[1].value())),
    {
        let (a, b, c, d) = (self.0[0][0], self.0[0][1], self.0[1][0], self.0[1][1]);
        let (x, y) = (v[0], v[1]);
        [field::add(field::mul(a, x), field::mul(b, y)), field::add(field::mul(c, x), field::mul(d, y))]
    }

    /// Multiply a vector of 2 field elements by the matrix, in place.
    pub fn multiply_in_place(&self, x: &mut Fe, y: &mut Fe)
        requires
            self.wf(),
            old(x).wf(),
            old(y).wf(),
        ensures
            final(x).wf(),
            final(y).wf(),
            (final(x).value(), final(y).value()) == apply(self@, (old(x).value(), old(y).value())),
    {
        let (a, b, c, d) = (self.0[0][0], self.0[0][1], self.0[1][0], self.0[1][1]);
        let nx = field::add(field::mul(a, *x), field::mul(b, *y));
        let ny = field::add(field::mul(c, *x), field::mul(d, *y));
        *x = nx;
        *y = ny;
    }
}

} // verus!
