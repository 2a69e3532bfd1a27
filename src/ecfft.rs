use vstd::arithmetic::power2::{lemma2_to64, lemma_pow2_unfold, pow2};
use vstd::prelude::*;

use crate::error::EcFftError;
use crate::field::{self, fadd, fmul, fpow, lemma_limbs_unique, Fe};
use crate::isogeny::{denominator_at, Isogeny};
use crate::matrix::{apply, det, invertible, lemma_inverse_law, mat_canonical, mat_inverse, Matrix};
use crate::poly::{lemma_constant_eval, poly_eval, values};

verus! {

/// Every element of the sequence is a canonical field element.
pub open spec fn all_wf(v: Seq<Fe>) -> bool {
    forall|k: int| 0 <= k < v.len() ==> #[trigger] v[k].wf()
}

/// Every matrix of the sequence has canonical entries.
pub open spec fn all_mat_wf(v: Seq<Matrix>) -> bool {
    forall|k: int| 0 <= k < v.len() ==> #[trigger] v[k].wf()
}

/// The points at even positions.
pub open spec fn evens(c: Seq<Fe>) -> Seq<Fe> {
    Seq::new(c.len() / 2, |j: int| c[2 * j])
}

/// The points at odd positions.
pub open spec fn odds(c: Seq<Fe>) -> Seq<Fe> {
    Seq::new(c.len() / 2, |j: int| c[2 * j + 1])
}

/// One level of the tree: a coset `s`, the coset `s_prime` that extension
/// maps it onto, and per fold pair the matrices that split values on `s`
/// into their two halves and recombine them on `s_prime`.
pub struct EcFftPrecomputationStep {
    pub s: Vec<Fe>,
    pub s_prime: Vec<Fe>,
    pub matrices: Vec<Matrix>,
    pub inverse_matrices: Vec<Matrix>,
}

impl EcFftPrecomputationStep {
    /// A level whose cosets have `size` points.
    pub open spec fn wf_at(&self, size: nat) -> bool {
        &&& self.s.len() == size
        &&& self.s_prime.len() == size
        &&& self.matrices.len() == size / 2
        &&& self.inverse_matrices.len() == size / 2
        &&& all_wf(self.s@)
        &&& all_wf(self.s_prime@)
        &&& all_mat_wf(self.matrices@)
        &&& all_mat_wf(self.inverse_matrices@)
    }
}

/// The tree built on one coset, finest level first.
pub struct EcFftCosetPrecomputation {
    pub steps: Vec<EcFftPrecomputationStep>,
}

impl EcFftCosetPrecomputation {
    /// Level `k` of `L` levels has cosets of `2^(L - k)` points.
    pub open spec fn wf(&self) -> bool {
        forall|k: int|
            0 <= k < self.steps.len() ==> #[trigger] self.steps[k].wf_at(
                pow2((self.steps.len() - k) as nat),
            )
    }
}

/// The points at even positions and those at odd positions.
pub fn split_even_odd(c: &[Fe]) -> (r: (Vec<Fe>, Vec<Fe>))
    ensures
        r.0@ == evens(c@),
        r.1@ == odds(c@),
{
    let half = c.len() / 2;
    let mut e: Vec<Fe> = Vec::new();
    let mut o: Vec<Fe> = Vec::new();
    let mut j: usize = 0;
    while j < half
        invariant
            half == c.len() / 2,
            0 <= j <= half,
            e@ == evens(c@).take(j as int),
            o@ == odds(c@).take(j as int),
        decreases half - j,
    {
        e.push(c[2 * j]);
        o.push(c[2 * j + 1]);
        j += 1;
        assert(e@ =~= evens(c@).take(j as int));
        assert(o@ =~= odds(c@).take(j as int));
    }
    assert(e@ =~= evens(c@));
    assert(o@ =~= odds(c@));
    (e, o)
}

/// The denominator of `iso` vanishes at none of the first `half` points.
pub open spec fn folds_without_pole(iso: Isogeny, s: Seq<nat>, half: nat) -> bool {
    forall|j: int| 0 <= j < half ==> denominator_at(iso.den(), #[trigger] s[j]) != 0
}

/// The matrix of the fold pair `(s[j], s[j + half])`:
/// `[[v0, s0 v0], [v1, s1 v1]]` with `v = denominator^(half - 1)`.
pub open spec fn pair_matrix_spec(iso: Isogeny, s: Seq<nat>, j: int, half: nat) -> (nat, nat, nat, nat) {
    let q = (half - 1) as nat;
    let v0 = fpow(denominator_at(iso.den(), s[j]), q);
    let v1 = fpow(denominator_at(iso.den(), s[j + half]), q);
    (v0, fmul(s[j], v0), v1, fmul(s[j + half], v1))
}

/// Every pair matrix of `s` has a non-zero determinant.
pub open spec fn pairs_invertible(iso: Isogeny, s: Seq<nat>, half: nat) -> bool {
    forall|j: int| 0 <= j < half ==> #[trigger] det(pair_matrix_spec(iso, s, j, half)) != 0
}

/// The matrices of a level are the inverses of the pair matrices of `s`
/// and the pair matrices of `s_prime`.
pub open spec fn step_matrices_ok(st: EcFftPrecomputationStep, iso: Isogeny) -> bool {
    let half = (st.s.len() / 2) as nat;
    forall|j: int|
        0 <= j < half ==> (#[trigger] st.matrices[j])@ == mat_inverse(
            pair_matrix_spec(iso, values(st.s@), j, half),
        ) && invertible(pair_matrix_spec(iso, values(st.s@), j, half))
            && st.inverse_matrices[j]@ == pair_matrix_spec(iso, values(st.s_prime@), j, half)
}

/// The images under `iso` of the first `half` points of `s`; a point of
/// the second half folds onto the same image as its partner.
fn fold(iso: &Isogeny, s: &Vec<Fe>, half: usize) -> (r: Result<Vec<Fe>, EcFftError>)
    requires
        iso.wf(),
        half <= s.len(),
        all_wf(s@),
    ensures
        r is Ok <==> folds_without_pole(*iso, values(s@), half as nat),
        r is Err ==> r == Err::<Vec<Fe>, EcFftError>(EcFftError::DivisionByZero),
        r matches Ok(v) ==> v.len() == half && all_wf(v@) && forall|j: int|
            0 <= j < half ==> #[trigger] v[j].value() == iso.eval_spec(s[j].value()),
{
    let mut v: Vec<Fe> = Vec::new();
    let mut j: usize = 0;
    while j < half
        invariant
            iso.wf(),
            half <= s.len(),
            all_wf(s@),
            0 <= j <= half,
            v.len() == j,
            all_wf(v@),
            forall|q: int| 0 <= q < j ==> #[trigger] v[q].value() == iso.eval_spec(s[q].value()),
            forall|q: int| 0 <= q < j ==> denominator_at(iso.den(), #[trigger] values(s@)[q]) != 0,
        decreases half - j,
    {
        let y = match iso.eval(s[j]) {
            Ok(y) => y,
            Err(e) => {
                proof {
                    assert(values(s@)[j as int] == s[j as int].value());
                }
                return Err(e);
            },
        };
        v.push(y);
        j += 1;
    }
    Ok(v)
}

/// The denominator of `iso` at `x`.
fn denominator(iso: &Isogeny, x: Fe) -> (r: Fe)
    requires
        iso.wf(),
        x.wf(),
    ensures
        r.wf(),
        r.value() == crate::isogeny::denominator_at(iso.den(), x.value()),
{
    field::add(iso.denominator[0], field::mul(iso.denominator[1], x))
}

/// For the fold pair `(s[j], s[j + half])`, the matrix that takes the two
/// halves `(A(t), B(t))` of a polynomial at the common image `t` to its
/// values `P(x) = (A(t) + x B(t)) v(x)^(half - 1)` at the pair.
fn pair_matrix(iso: &Isogeny, s: &Vec<Fe>, j: usize, half: usize) -> (r: Matrix)
    requires
        iso.wf(),
        all_wf(s@),
        1 <= half,
        j < half,
        j + half < s.len(),
    ensures
        r.wf(),
        r@ == pair_matrix_spec(*iso, values(s@), j as int, half as nat),
{
    let q = (half - 1) as u64;
    let s0 = s[j];
    let s1 = s[j + half];
    let v0 = field::pow(denominator(iso, s0), q);
    let v1 = field::pow(denominator(iso, s1), q);
    Matrix([[v0, field::mul(s0, v0)], [v1, field::mul(s1, v1)]])
}

/// The level of the tree for cosets `s` and `s_prime` of `2 * half` points.
fn build_step(iso: &Isogeny, s: Vec<Fe>, s_prime: Vec<Fe>, half: usize) -> (r: Result<
    EcFftPrecomputationStep,
    EcFftError,
>)
    requires
        iso.wf(),
        1 <= half,
        s.len() == 2 * half,
        s_prime.len() == 2 * half,
        all_wf(s@),
        all_wf(s_prime@),
    ensures
        r is Ok <==> pairs_invertible(*iso, values(s@), half as nat),
        r is Err ==> r == Err::<EcFftPrecomputationStep, EcFftError>(EcFftError::DivisionByZero),
        r matches Ok(st) ==> st.wf_at(2 * half as nat) && st.s@ == s@ && st.s_prime@ == s_prime@
            && step_matrices_ok(st, *iso),
{
    let mut matrices: Vec<Matrix> = Vec::new();
    let mut inverse_matrices: Vec<Matrix> = Vec::new();
    let mut j: usize = 0;
    while j < half
        invariant
            iso.wf(),
            1 <= half,
            s.len() == 2 * half,
            s_prime.len() == 2 * half,
            all_wf(s@),
            all_wf(s_prime@),
            0 <= j <= half,
            matrices.len() == j,
            inverse_matrices.len() == j,
            all_mat_wf(matrices@),
            all_mat_wf(inverse_matrices@),
            forall|q: int| 0 <= q < j ==> #[trigger] det(pair_matrix_spec(*iso, values(s@), q, half as nat)) != 0,
            forall|q: int|
                0 <= q < j ==> (#[trigger] matrices[q])@ == mat_inverse(
                    pair_matrix_spec(*iso, values(s@), q, half as nat),
                ) && invertible(pair_matrix_spec(*iso, values(s@), q, half as nat))
                    && inverse_matrices[q]@ == pair_matrix_spec(*iso, values(s_prime@), q, half as nat),
        decreases half - j,
    {
        let m = pair_matrix(iso, &s, j, half).inverse()?;
        matrices.push(m);
        inverse_matrices.push(pair_matrix(iso, &s_prime, j, half));
        j += 1;
    }
    Ok(EcFftPrecomputationStep { s, s_prime, matrices, inverse_matrices })
}

/// The exponent of a power of two.
pub open spec fn log2_of(n: nat) -> nat {
    choose|l: nat| pow2(l) == n
}

/// The exponent of `n` if it is a power of two.
#[verifier::spinoff_prover]
fn log2_exact(n: usize) -> (r: Option<usize>)
    ensures
        r matches Some(l) ==> n == pow2(l as nat) && l < 64,
        r is None ==> forall|l: nat| #[trigger] pow2(l) != n,
{
    if n == 0 {
        proof {
            assert forall|l: nat| #[trigger] pow2(l) != n by {
                vstd::arithmetic::power2::lemma_pow2_pos(l);
            }
        }
        return None;
    }
    let mut m: usize = n;
    let mut l: usize = 0;
    proof {
        lemma2_to64();
    }
    while m % 2 == 0
        invariant
            1 <= m <= n,
            l < 64,
            n == m * pow2(l as nat),
            forall|e: nat| #[trigger] pow2(e) == n ==> e >= l && pow2((e - l) as nat) == m,
        decreases m,
    {
        proof {
            lemma2_to64();
            lemma_pow2_unfold((l + 1) as nat);
            assert(n == (m / 2) * pow2((l + 1) as nat)) by (nonlinear_arith)
                requires
                    n == m * pow2(l as nat),
                    m % 2 == 0,
                    pow2((l + 1) as nat) == 2 * pow2(l as nat),
            ;
            assert forall|e: nat| #[trigger] pow2(e) == n implies e >= l + 1 && pow2((e - (l + 1)) as nat) == m / 2 by {
                if e == l {
                    assert(pow2(0) == 1);
                    assert(m == 1);
                }
                lemma_pow2_unfold((e - l) as nat);
            }
            if l + 1 >= 64 {
                vstd::arithmetic::power2::lemma_pow2_strictly_increases(63, (l + 1) as nat);
                vstd::arithmetic::power2::lemma2_to64_rest();
                assert(n >= pow2((l + 1) as nat)) by (nonlinear_arith)
                    requires
                        n == (m / 2) * pow2((l + 1) as nat),
                        m / 2 >= 1,
                ;
            }
        }
        m = m / 2;
        l = l + 1;
    }
    if m == 1 {
        assert(pow2(l as nat) == n);
        Some(l)
    } else {
        proof {
            lemma2_to64();
            assert forall|e: nat| #[trigger] pow2(e) != n by {
                if pow2(e) == n {
                    if e > l {
                        lemma_pow2_unfold((e - l) as nat);
                    }
                }
            }
        }
        None
    }
}

/// `next` holds the images under `iso` of the first points of `prev`, one
/// for each fold pair.
pub open spec fn folds_onto(iso: Isogeny, prev: Seq<Fe>, next: Seq<Fe>) -> bool {
    &&& next.len() == prev.len() / 2
    &&& forall|j: int| 0 <= j < next.len() ==> #[trigger] next[j].value() == iso.eval_spec(prev[j].value())
}

/// The number of levels of the tree on a coset of `2^log` points.
pub open spec fn levels(log: nat) -> nat {
    if log == 0 { 0 } else { (log - 1) as nat }
}

/// One side of level `k` (its even or its odd points): level 0 is that
/// side of the coset, and isogeny `k` maps the first half of level `k` onto
/// level `k + 1`.
pub open spec fn level_points(side: Seq<nat>, isogenies: Seq<Isogeny>, k: nat) -> Seq<nat>
    decreases k,
{
    if k == 0 {
        side
    } else {
        let prev = level_points(side, isogenies, (k - 1) as nat);
        Seq::new(prev.len() / 2, |j: int| isogenies[k - 1].eval_spec(prev[j]))
    }
}

/// At level `k` both sides fold without a pole and the pair matrices of
/// the even side are invertible.
pub open spec fn level_ok(coset: Seq<Fe>, isogenies: Seq<Isogeny>, k: nat) -> bool {
    let s = level_points(values(evens(coset)), isogenies, k);
    let sp = level_points(values(odds(coset)), isogenies, k);
    &&& folds_without_pole(isogenies[k as int], s, s.len() / 2)
    &&& folds_without_pole(isogenies[k as int], sp, sp.len() / 2)
    &&& pairs_invertible(isogenies[k as int], s, s.len() / 2)
}

/// The first `total` levels of the tree of `coset` can be built.
pub open spec fn buildable(coset: Seq<Fe>, isogenies: Seq<Isogeny>, total: nat) -> bool {
    forall|k: nat| k < total ==> #[trigger] level_ok(coset, isogenies, k)
}

/// The tree of a coset, built level by level: the first level splits the
/// coset into its even and odd points, and isogeny `k` folds the cosets of
/// level `k` onto those of level `k + 1`.
pub open spec fn is_tree_of(p: EcFftCosetPrecomputation, coset: Seq<Fe>, isogenies: Seq<Isogeny>) -> bool {
    &&& p.wf()
    &&& isogenies.len() >= p.steps.len()
    &&& coset.len() == pow2((p.steps.len() + 1) as nat) || (coset.len() == 1 && p.steps.len() == 0)
    &&& p.steps.len() > 0 ==> p.steps[0].s@ == evens(coset) && p.steps[0].s_prime@ == odds(coset)
    &&& forall|k: int|
        0 <= k < p.steps.len() - 1 ==> folds_onto(isogenies[k], #[trigger] p.steps[k].s@, p.steps[k + 1].s@)
            && folds_onto(isogenies[k], p.steps[k].s_prime@, p.steps[k + 1].s_prime@)
    &&& forall|k: int| 0 <= k < p.steps.len() ==> step_matrices_ok(#[trigger] p.steps[k], isogenies[k])
}

/// The precomputation tree of a coset of `2^m` points, from the isogenies
/// of its levels, finest first. Fails with `LengthMismatch` when the coset
/// is not a power of two in size or there are too few isogenies, and with
/// `DivisionByZero` when an isogeny or a pair matrix degenerates on it.
#[verifier::spinoff_prover]
#[verifier::rlimit(100)]
pub fn precompute_on_coset(coset: &[Fe], isogenies: &[Isogeny]) -> (r: Result<
    EcFftCosetPrecomputation,
    EcFftError,
>)
    requires
        all_wf(coset@),
        forall|k: int| 0 <= k < isogenies.len() ==> #[trigger] isogenies[k].wf(),
    ensures
        r == Err::<EcFftCosetPrecomputation, EcFftError>(EcFftError::LengthMismatch) <==> (forall|l: nat|
            #[trigger] pow2(l) != coset.len()) || exists|l: nat|
            #[trigger] pow2(l) == coset.len() && isogenies.len() < levels(l),
        r is Ok <==> exists|l: nat|
            #[trigger] pow2(l) == coset.len() && isogenies.len() >= levels(l) && buildable(
                coset@,
                isogenies@,
                levels(l),
            ),
        r is Err ==> r == Err::<EcFftCosetPrecomputation, EcFftError>(EcFftError::LengthMismatch) || r
            == Err::<EcFftCosetPrecomputation, EcFftError>(EcFftError::DivisionByZero),
        r matches Ok(p) ==> is_tree_of(p, coset@, isogenies@),
{
    let log = match log2_exact(coset.len()) {
        None => {
            return Err(EcFftError::LengthMismatch);
        },
        Some(l) => l,
    };
    proof {
        assert forall|l: nat| #[trigger] pow2(l) == coset.len() implies l == log by {
            if l < log {
                vstd::arithmetic::power2::lemma_pow2_strictly_increases(l, log as nat);
            } else if l > log {
                vstd::arithmetic::power2::lemma_pow2_strictly_increases(log as nat, l);
            }
        }
        lemma2_to64();
    }
    let total: usize = if log == 0 { 0 } else { log - 1 };
    if isogenies.len() < total {
        return Err(EcFftError::LengthMismatch);
    }
    let mut steps: Vec<EcFftPrecomputationStep> = Vec::new();
    if log == 0 {
        let p = EcFftCosetPrecomputation { steps };
        assert(p.wf());
        assert(pow2(log as nat) == coset.len() && isogenies.len() >= levels(log as nat) && buildable(
            coset@,
            isogenies@,
            levels(log as nat),
        ));
        return Ok(p);
    }
    let (mut s, mut sp) = split_even_odd(coset);
    proof {
        lemma_pow2_unfold(log as nat);
    }
    let mut k: usize = 0;
    while k < total
        invariant
            total + 1 == log,
            coset.len() == pow2(log as nat),
            forall|l: nat| #[trigger] pow2(l) == coset.len() ==> l == log,
            levels(log as nat) == total,
            isogenies.len() >= total,
            forall|q: int| 0 <= q < isogenies.len() ==> #[trigger] isogenies[q].wf(),
            0 <= k <= total,
            s.len() == pow2((total - k) as nat),
            sp.len() == pow2((total - k) as nat),
            all_wf(s@),
            all_wf(sp@),
            steps.len() == k,
            forall|q: int| 0 <= q < k ==> #[trigger] steps[q].wf_at(pow2((total - q) as nat)),
            k == 0 ==> s@ == evens(coset@) && sp@ == odds(coset@),
            k > 0 ==> steps[0].s@ == evens(coset@) && steps[0].s_prime@ == odds(coset@),
            k > 0 ==> folds_onto(isogenies[k - 1], steps[k - 1].s@, s@) && folds_onto(
                isogenies[k - 1],
                steps[k - 1].s_prime@,
                sp@,
            ),
            forall|q: int|
                0 <= q < k - 1 ==> folds_onto(isogenies[q], #[trigger] steps[q].s@, steps[q + 1].s@)
                    && folds_onto(isogenies[q], steps[q].s_prime@, steps[q + 1].s_prime@),
            forall|q: int| 0 <= q < k ==> step_matrices_ok(#[trigger] steps[q], isogenies[q]),
            values(s@) == level_points(values(evens(coset@)), isogenies@, k as nat),
            values(sp@) == level_points(values(odds(coset@)), isogenies@, k as nat),
            buildable(coset@, isogenies@, k as nat),
        decreases total - k,
    {
        proof {
            lemma_pow2_unfold((total - k) as nat);
            vstd::arithmetic::power2::lemma_pow2_pos((total - k - 1) as nat);
        }
        let half = s.len() / 2;
        let next_s = match fold(&isogenies[k], &s, half) {
            Ok(v) => v,
            Err(e) => {
                proof {
                    assert(!level_ok(coset@, isogenies@, k as nat));
                }
                return Err(e);
            },
        };
        let next_sp = match fold(&isogenies[k], &sp, half) {
            Ok(v) => v,
            Err(e) => {
                proof {
                    assert(!level_ok(coset@, isogenies@, k as nat));
                }
                return Err(e);
            },
        };
        let ghost old_s = s@;
        let ghost old_sp = sp@;
        let ghost old_steps = steps@;
        let st = match build_step(&isogenies[k], s, sp, half) {
            Ok(st) => st,
            Err(e) => {
                proof {
                    assert(!level_ok(coset@, isogenies@, k as nat));
                }
                return Err(e);
            },
        };
        proof {
            assert(level_ok(coset@, isogenies@, k as nat));
            assert forall|q: nat| q < k + 1 implies #[trigger] level_ok(coset@, isogenies@, q) by {
                if q < k {
                    assert(level_ok(coset@, isogenies@, q));
                }
            }
            let ls = level_points(values(evens(coset@)), isogenies@, (k + 1) as nat);
            let lsp = level_points(values(odds(coset@)), isogenies@, (k + 1) as nat);
            assert(values(next_s@) =~= ls);
            assert(values(next_sp@) =~= lsp);
        }
        steps.push(st);
        proof {
            assert(steps@.take(k as int) =~= old_steps);
            assert(steps[k as int].s@ == old_s && steps[k as int].s_prime@ == old_sp);
            assert forall|q: int|
                0 <= q < k implies folds_onto(isogenies[q], #[trigger] steps[q].s@, steps[q + 1].s@)
                && folds_onto(isogenies[q], steps[q].s_prime@, steps[q + 1].s_prime@) by {
                assert(steps[q] == old_steps[q]);
                if q + 1 < k {
                    assert(steps[q + 1] == old_steps[q + 1]);
                }
            }
        }
        s = next_s;
        sp = next_sp;
        k += 1;
        proof {
            assert(folds_onto(isogenies[k - 1], steps[k - 1].s@, s@));
            assert(folds_onto(isogenies[k - 1], steps[k - 1].s_prime@, sp@));
        }
    }
    let p = EcFftCosetPrecomputation { steps };
    proof {
        assert(pow2(log as nat) == coset.len() && isogenies.len() >= levels(log as nat) && buildable(
            coset@,
            isogenies@,
            levels(log as nat),
        ));
        assert forall|q: int| 0 <= q < p.steps.len() implies #[trigger] p.steps[q].wf_at(
            pow2((p.steps.len() - q) as nat),
        ) by {
            assert(p.steps[q].wf_at(pow2((total - q) as nat)));
        }
    }
    Ok(p)
}

/// Extension at a level of the tree, on the values of the points: the
/// values on `s` are split pair by pair into their two halves by the level's
/// matrices, both halves are extended one level down, and the level's
/// inverse matrices recombine them into the values on `s_prime`. On the
/// single point below the last level, extension is the identity.
pub open spec fn extend_spec(p: EcFftCosetPrecomputation, level: int, e: Seq<nat>) -> Seq<nat>
    decreases p.steps.len() - level,
{
    if level < 0 || level >= p.steps.len() {
        e
    } else {
        let step = p.steps[level];
        let half = e.len() / 2;
        let h0 = Seq::new(half, |j: int| apply(step.matrices[j]@, (e[j], e[j + half])).0);
        let h1 = Seq::new(half, |j: int| apply(step.matrices[j]@, (e[j], e[j + half])).1);
        let e0 = extend_spec(p, level + 1, h0);
        let e1 = extend_spec(p, level + 1, h1);
        Seq::new(half, |j: int| apply(step.inverse_matrices[j]@, (e0[j], e1[j])).0) + Seq::new(
            half,
            |j: int| apply(step.inverse_matrices[j]@, (e0[j], e1[j])).1,
        )
    }
}

impl EcFftCosetPrecomputation {
    /// Extension at `level`: split each fold pair with the level's matrices,
    /// extend both halves one level down, and recombine them on `s_prime`.
    fn extend_at(&self, level: usize, evals: &Vec<Fe>) -> (r: Vec<Fe>)
        requires
            self.wf(),
            level <= self.steps.len(),
            evals.len() == pow2((self.steps.len() - level) as nat),
            all_wf(evals@),
        ensures
            r.len() == evals.len(),
            all_wf(r@),
            values(r@) == extend_spec(*self, level as int, values(evals@)),
            level == self.steps.len() ==> r@ == evals@,
        decreases self.steps.len() - level,
    {
        proof {
            lemma2_to64();
        }
        if level == self.steps.len() {
            let r = vec![evals[0]];
            assert(r@ =~= evals@);
            return r;
        }
        let step = &self.steps[level];
        assert(step.wf_at(pow2((self.steps.len() - level) as nat)));
        proof {
            lemma_pow2_unfold((self.steps.len() - level) as nat);
        }
        let half = evals.len() / 2;
        let mut h0: Vec<Fe> = Vec::new();
        let mut h1: Vec<Fe> = Vec::new();
        let mut j: usize = 0;
        while j < half
            invariant
                half * 2 == evals.len(),
                step.wf_at(evals.len() as nat),
                all_wf(evals@),
                0 <= j <= half,
                h0.len() == j,
                h1.len() == j,
                all_wf(h0@),
                all_wf(h1@),
                forall|q: int|
                    0 <= q < j ==> (#[trigger] h0[q].value(), h1[q].value()) == apply(
                        step.matrices[q]@,
                        (evals[q].value(), evals[q + half].value()),
                    ),
            decreases half - j,
        {
            let v = step.matrices[j].multiply([evals[j], evals[j + half]]);
            h0.push(v[0]);
            h1.push(v[1]);
            j += 1;
        }
        let ghost ev = values(evals@);
        let ghost sp0 = Seq::new(half as nat, |j: int| apply(step.matrices[j]@, (ev[j], ev[j + half])).0);
        let ghost sp1 = Seq::new(half as nat, |j: int| apply(step.matrices[j]@, (ev[j], ev[j + half])).1);
        assert(values(h0@) =~= sp0);
        assert forall|q: int| 0 <= q < half implies #[trigger] values(h1@)[q] == sp1[q] by {
            assert(h0[q].value() == sp0[q]);
        }
        assert(values(h1@) =~= sp1);
        let e0 = self.extend_at(level + 1, &h0);
        let e1 = self.extend_at(level + 1, &h1);
        let ghost ve0 = values(e0@);
        let ghost ve1 = values(e1@);
        let mut lo: Vec<Fe> = Vec::new();
        let mut hi: Vec<Fe> = Vec::new();
        let mut j: usize = 0;
        while j < half
            invariant
                half * 2 == evals.len(),
                step.wf_at(evals.len() as nat),
                e0.len() == half,
                e1.len() == half,
                all_wf(e0@),
                all_wf(e1@),
                0 <= j <= half,
                lo.len() == j,
                hi.len() == j,
                all_wf(lo@),
                all_wf(hi@),
                forall|q: int|
                    0 <= q < j ==> (#[trigger] lo[q].value(), hi[q].value()) == apply(
                        step.inverse_matrices[q]@,
                        (e0[q].value(), e1[q].value()),
                    ),
            decreases half - j,
        {
            let v = step.inverse_matrices[j].multiply([e0[j], e1[j]]);
            lo.push(v[0]);
            hi.push(v[1]);
            j += 1;
        }
        let ghost vlo = Seq::new(half as nat, |j: int| apply(step.inverse_matrices[j]@, (ve0[j], ve1[j])).0);
        let ghost vhi = Seq::new(half as nat, |j: int| apply(step.inverse_matrices[j]@, (ve0[j], ve1[j])).1);
        assert(values(lo@) =~= vlo);
        assert forall|q: int| 0 <= q < half implies #[trigger] values(hi@)[q] == vhi[q] by {
            assert(lo[q].value() == vlo[q]);
        }
        assert(values(hi@) =~= vhi);
        lo.append(&mut hi);
        assert(values(lo@) =~= vlo + vhi);
        lo
    }

    /// The values on `s_prime` of the polynomial of degree below `|s|` that
    /// takes the values `evals` on `s`, for the level whose cosets have as
    /// many points as `evals`; one point extends to itself. Fails with
    /// `LengthMismatch` when no level has that size.
    pub fn extend(&self, evals: &[Fe]) -> (r: Result<Vec<Fe>, EcFftError>)
        requires
            self.wf(),
            all_wf(evals@),
        ensures
            r is Ok <==> exists|k: nat| k <= self.steps.len() && #[trigger] pow2(k) == evals.len(),
            r is Err ==> r == Err::<Vec<Fe>, EcFftError>(EcFftError::LengthMismatch),
            r matches Ok(v) ==> v.len() == evals.len() && all_wf(v@) && (evals.len() == 1 ==> v@
                == evals@) && values(v@) == extend_spec(
                *self,
                self.steps.len() - log2_of(evals.len() as nat),
                values(evals@),
            ),
    {
        let total = self.steps.len();
        let mut level: usize = 0;
        while level < total && self.steps[level].s.len() != evals.len()
            invariant
                self.wf(),
                total == self.steps.len(),
                0 <= level <= total,
                forall|q: int| 0 <= q < level ==> #[trigger] self.steps[q].s.len() != evals.len(),
            decreases total - level,
        {
            level += 1;
        }
        proof {
            lemma2_to64();
        }
        if level == total && evals.len() != 1 {
            proof {
                assert forall|k: nat| k <= total implies #[trigger] pow2(k) != evals.len() by {
                    if k > 0 {
                        let q = total - k;
                        assert(self.steps[q].wf_at(pow2((total - q) as nat)));
                    }
                }
            }
            return Err(EcFftError::LengthMismatch);
        }
        if level < total {
            assert(self.steps[level as int].wf_at(pow2((total - level) as nat)));
            proof {
                lemma_pow2_unfold((total - level) as nat);
                vstd::arithmetic::power2::lemma_pow2_pos((total - level - 1) as nat);
            }
        }
        let v = vstd::slice::slice_to_vec(evals);
        let r = self.extend_at(level, &v);
        proof {
            assert(pow2((total - level) as nat) == evals.len());
            let l = log2_of(evals.len() as nat);
            lemma_pow2_injective(l, (total - level) as nat);
        }
        Ok(r)
    }
}

/// Evaluation on domain `i`, on the values of the coefficients: with
/// `P = low + x^(n/2) high`, `low` and `high` are evaluated on domain
/// `i + 1` (the even points), extended to the odd points with the tree of
/// domain `i`, and combined point by point; a constant is its own value.
pub open spec fn evaluate_spec(p: EcFftPrecomputation, i: int, c: Seq<nat>) -> Seq<nat>
    decreases p.domains.len() - i,
{
    if i < 0 || i >= p.domains.len() - 1 || c.len() <= 1 {
        c
    } else {
        let half = c.len() / 2;
        let ls = evaluate_spec(p, i + 1, c.take(half as int));
        let hs = evaluate_spec(p, i + 1, c.skip(half as int));
        let lsp = extend_spec(p.coset_precomputations[i], 0, ls);
        let hsp = extend_spec(p.coset_precomputations[i], 0, hs);
        let d = values(p.domains[i]@);
        Seq::new(
            2 * half,
            |k: int|
                if k % 2 == 0 {
                    fadd(ls[k / 2], fmul(fpow(d[k], half), hs[k / 2]))
                } else {
                    fadd(lsp[k / 2], fmul(fpow(d[k], half), hsp[k / 2]))
                },
        )
    }
}

/// The trees of a coset and of each of its sub-cosets: `domains[i]` holds
/// every `2^i`-th point of the coset.
pub struct EcFftPrecomputation {
    pub domains: Vec<Vec<Fe>>,
    pub coset_precomputations: Vec<EcFftCosetPrecomputation>,
}

impl EcFftPrecomputation {
    /// Index of the smallest domain, a single point.
    pub open spec fn top(&self) -> int {
        self.domains.len() - 1
    }

    /// Domain `i` has `2^(top - i)` points and is the even half of domain
    /// `i - 1`; each domain carries the tree built on it.
    pub open spec fn wf(&self) -> bool {
        &&& self.domains.len() >= 1
        &&& self.coset_precomputations.len() == self.domains.len()
        &&& forall|i: int|
            0 <= i < self.domains.len() ==> {
                &&& #[trigger] self.domains[i].len() == pow2((self.top() - i) as nat)
                &&& all_wf(self.domains[i]@)
                &&& self.coset_precomputations[i].wf()
                &&& self.coset_precomputations[i].steps.len() == levels((self.top() - i) as nat)
            }
        &&& forall|i: int|
            0 <= i < self.top() ==> #[trigger] self.domains[i + 1]@ == evens(self.domains[i]@)
    }

    /// Evaluation of a polynomial with as many coefficients as domain `i`
    /// has points: `P = low + x^(n/2) high`, with `low` and `high` evaluated
    /// on the even half of the domain and extended to the odd half.
    fn evaluate_at(&self, i: usize, coeffs: &Vec<Fe>) -> (r: Vec<Fe>)
        requires
            self.wf(),
            0 <= i <= self.top(),
            coeffs.len() == self.domains[i as int].len(),
            all_wf(coeffs@),
        ensures
            r.len() == coeffs.len(),
            all_wf(r@),
            coeffs.len() == 1 ==> r@ == coeffs@,
            values(r@) == evaluate_spec(*self, i as int, values(coeffs@)),
        decreases self.top() - i,
    {
        proof {
            lemma2_to64();
        }
        let n = coeffs.len();
        if n == 1 {
            let r = vec![coeffs[0]];
            assert(r@ =~= coeffs@);
            return r;
        }
        assert(self.domains[i as int].len() == pow2((self.top() - i) as nat));
        proof {
            if i == self.top() {
                assert(false);
            }
            lemma_pow2_unfold((self.top() - i) as nat);
        }
        let half = n / 2;
        let mut low: Vec<Fe> = Vec::new();
        let mut high: Vec<Fe> = Vec::new();
        let mut j: usize = 0;
        while j < half
            invariant
                half * 2 == n,
                n == coeffs.len(),
                all_wf(coeffs@),
                0 <= j <= half,
                low.len() == j,
                high.len() == j,
                all_wf(low@),
                all_wf(high@),
                low@ == coeffs@.take(j as int),
                high@ == coeffs@.subrange(half as int, half + j),
            decreases half - j,
        {
            low.push(coeffs[j]);
            high.push(coeffs[j + half]);
            j += 1;
            assert(low@ =~= coeffs@.take(j as int));
            assert(high@ =~= coeffs@.subrange(half as int, half + j));
        }
        assert(values(low@) =~= values(coeffs@).take(half as int));
        assert(values(high@) =~= values(coeffs@).skip(half as int));
        assert(self.domains[i + 1].len() == pow2((self.top() - (i + 1)) as nat));
        let low_s = self.evaluate_at(i + 1, &low);
        let high_s = self.evaluate_at(i + 1, &high);
        let cp = &self.coset_precomputations[i];
        let low_sp = cp.extend_at(0, &low_s);
        let high_sp = cp.extend_at(0, &high_s);
        let d = &self.domains[i];
        let e = half as u64;
        let ghost ls = values(low_s@);
        let ghost hs = values(high_s@);
        let ghost lsp = values(low_sp@);
        let ghost hsp = values(high_sp@);
        let ghost vd = values(d@);
        let ghost want = evaluate_spec(*self, i as int, values(coeffs@));
        assert(want == Seq::new(
            2 * half as nat,
            |k: int|
                if k % 2 == 0 {
                    fadd(ls[k / 2], fmul(fpow(vd[k], half as nat), hs[k / 2]))
                } else {
                    fadd(lsp[k / 2], fmul(fpow(vd[k], half as nat), hsp[k / 2]))
                },
        ));
        let mut r: Vec<Fe> = Vec::new();
        let mut j: usize = 0;
        while j < half
            invariant
                half * 2 == n,
                d.len() == n,
                all_wf(d@),
                low_s.len() == half,
                high_s.len() == half,
                low_sp.len() == half,
                high_sp.len() == half,
                all_wf(low_s@),
                all_wf(high_s@),
                all_wf(low_sp@),
                all_wf(high_sp@),
                0 <= j <= half,
                r.len() == 2 * j,
                all_wf(r@),
                e as nat == half as nat,
                want.len() == 2 * half,
                ls == values(low_s@),
                hs == values(high_s@),
                lsp == values(low_sp@),
                hsp == values(high_sp@),
                vd == values(d@),
                forall|k: int|
                    0 <= k < 2 * half ==> #[trigger] want[k] == if k % 2 == 0 {
                        fadd(ls[k / 2], fmul(fpow(vd[k], half as nat), hs[k / 2]))
                    } else {
                        fadd(lsp[k / 2], fmul(fpow(vd[k], half as nat), hsp[k / 2]))
                    },
                forall|k: int| 0 <= k < 2 * j ==> #[trigger] r[k].value() == want[k],
            decreases half - j,
        {
            let x = d[2 * j];
            let xp = d[2 * j + 1];
            r.push(field::add(low_s[j], field::mul(field::pow(x, e), high_s[j])));
            r.push(field::add(low_sp[j], field::mul(field::pow(xp, e), high_sp[j])));
            proof {
                assert((2 * j) as int / 2 == j && (2 * j + 1) as int / 2 == j);
                assert((2 * j) as int % 2 == 0 && (2 * j + 1) as int % 2 == 1);
                assert(r[2 * j as int].value() == want[2 * j as int]);
                assert(r[2 * j + 1].value() == want[2 * j + 1]);
            }
            j += 1;
        }
        assert(values(r@) =~= want);
        r
    }

    /// The values of the polynomial with coefficients `coeffs`, lowest
    /// degree first, at every point of the domain with as many points, in
    /// the domain's order. Fails with `DegreeTooLarge` when no domain has
    /// that many points.
    pub fn evaluate_over_domain(&self, coeffs: &[Fe]) -> (r: Result<Vec<Fe>, EcFftError>)
        requires
            self.wf(),
            all_wf(coeffs@),
        ensures
            r is Ok <==> exists|k: nat| k <= self.top() && #[trigger] pow2(k) == coeffs.len(),
            r is Err ==> r == Err::<Vec<Fe>, EcFftError>(EcFftError::DegreeTooLarge),
            r matches Ok(v) ==> v.len() == coeffs.len() && all_wf(v@) && (coeffs.len() == 1 ==> v@
                == coeffs@) && values(v@) == evaluate_spec(
                *self,
                self.top() - log2_of(coeffs.len() as nat),
                values(coeffs@),
            ),
    {
        let count = self.domains.len();
        let mut i: usize = 0;
        while i < count && self.domains[i].len() != coeffs.len()
            invariant
                self.wf(),
                count == self.domains.len(),
                0 <= i <= count,
                forall|q: int| 0 <= q < i ==> #[trigger] self.domains[q].len() != coeffs.len(),
            decreases count - i,
        {
            i += 1;
        }
        if i == count {
            proof {
                assert forall|k: nat| k <= self.top() implies #[trigger] pow2(k) != coeffs.len() by {
                    let q = self.top() - k;
                    assert(self.domains[q].len() == pow2((self.top() - q) as nat));
                }
            }
            return Err(EcFftError::DegreeTooLarge);
        }
        assert(self.domains[i as int].len() == pow2((self.top() - i) as nat));
        proof {
            let l = log2_of(coeffs.len() as nat);
            lemma_pow2_injective(l, (self.top() - i) as nat);
        }
        let v = vstd::slice::slice_to_vec(coeffs);
        Ok(self.evaluate_at(i, &v))
    }
}

/// Every `2^i`-th point of a coset, as `i` halvings to the even points.
pub open spec fn halvings(c: Seq<Fe>, i: nat) -> Seq<Fe>
    decreases i,
{
    if i == 0 {
        c
    } else {
        evens(halvings(c, (i - 1) as nat))
    }
}

/// The trees of a coset of `2^log` points and of all its sub-cosets can be
/// built.
pub open spec fn all_buildable(coset: Seq<Fe>, isogenies: Seq<Isogeny>, log: nat) -> bool {
    forall|i: nat| i <= log ==> buildable(#[trigger] halvings(coset, i), isogenies, levels((log - i) as nat))
}

/// When the trees of a coset and of all its sub-cosets can be built, the
/// tree of the coset itself and that of its every-other-point subsample can
/// be built: `precompute_on_coset` succeeds on both.
pub proof fn lemma_subsample_construction(coset: Seq<Fe>, isogenies: Seq<Isogeny>, l: nat)
    requires
        l >= 1,
        pow2(l) == coset.len(),
        isogenies.len() >= levels(l),
        all_buildable(coset, isogenies, l),
    ensures
        buildable(coset, isogenies, levels(l)),
        evens(coset).len() == pow2((l - 1) as nat),
        isogenies.len() >= levels((l - 1) as nat),
        buildable(evens(coset), isogenies, levels((l - 1) as nat)),
{
    assert(halvings(coset, 0) == coset);
    assert(halvings(coset, 1) == evens(halvings(coset, 0)));
    assert(buildable(halvings(coset, 0), isogenies, levels(l)));
    assert(buildable(halvings(coset, 1), isogenies, levels((l - 1) as nat)));
    lemma_pow2_unfold(l);
}

/// A polynomial `c0 + c1 x` at `x`, as the product of the matrix
/// `[[1, x], [1, y]]` with `(c0, c1)`.
proof fn lemma_linear_eval(c0: nat, c1: nat, x: nat)
    requires
        c0 < field::modulus(),
        c1 < field::modulus(),
    ensures
        poly_eval(seq![c0, c1], x) == fadd(fmul(1, c0), fmul(x, c1)),
{
    assert(seq![c0, c1].drop_first() =~= seq![c1]);
    lemma_constant_eval(c1, x);
    vstd::arithmetic::div_mod::lemma_small_mod(c0, field::modulus());
}

/// The pair matrix of a pair on the coarsest level, where the denominator
/// is raised to the power zero.
proof fn lemma_last_pair_matrix(iso: Isogeny, s: Seq<nat>)
    requires
        s.len() == 2,
        s[0] < field::modulus(),
        s[1] < field::modulus(),
    ensures
        pair_matrix_spec(iso, s, 0, 1) == (1nat, s[0], 1nat, s[1]),
{
    vstd::arithmetic::div_mod::lemma_small_mod(s[0], field::modulus());
    vstd::arithmetic::div_mod::lemma_small_mod(s[1], field::modulus());
    let d0 = denominator_at(iso.den(), s[0]);
    let d1 = denominator_at(iso.den(), s[1]);
    assert(fpow(d0, 0) == 1 && fpow(d1, 0) == 1);
    assert(s[0] * 1 == s[0] && s[1] * 1 == s[1]);
    assert(fmul(s[0], 1) == s[0] && fmul(s[1], 1) == s[1]);
}

/// On the coarsest level of a tree, extension takes the values of a
/// polynomial of degree below two on `s` to its values on `s_prime`.
#[verifier::spinoff_prover]
#[verifier::rlimit(100)]
pub proof fn lemma_extend_last_level(
    p: EcFftCosetPrecomputation,
    coset: Seq<Fe>,
    isogenies: Seq<Isogeny>,
    c0: nat,
    c1: nat,
)
    requires
        is_tree_of(p, coset, isogenies),
        p.steps.len() >= 1,
        c0 < field::modulus(),
        c1 < field::modulus(),
    ensures
        ({
            let st = p.steps[p.steps.len() - 1];
            let c = seq![c0, c1];
            extend_spec(p, p.steps.len() - 1, seq![poly_eval(c, st.s[0].value()), poly_eval(c, st.s[1].value())])
                == seq![poly_eval(c, st.s_prime[0].value()), poly_eval(c, st.s_prime[1].value())]
        }),
{
    let k = p.steps.len() - 1;
    let st = p.steps[k];
    let iso = isogenies[k];
    lemma2_to64();
    assert(st.wf_at(pow2((p.steps.len() - k) as nat)));
    let vs = values(st.s@);
    let vsp = values(st.s_prime@);
    assert(vs[0] == st.s[0].value() && vs[1] == st.s[1].value());
    assert(vsp[0] == st.s_prime[0].value() && vsp[1] == st.s_prime[1].value());
    assert(st.s[0].wf() && st.s[1].wf() && st.s_prime[0].wf() && st.s_prime[1].wf());
    lemma_last_pair_matrix(iso, vs);
    lemma_last_pair_matrix(iso, vsp);
    assert(step_matrices_ok(st, iso));
    let m = pair_matrix_spec(iso, vs, 0, 1);
    let n = pair_matrix_spec(iso, vsp, 0, 1);
    assert(st.matrices[0]@ == mat_inverse(m) && invertible(m));
    assert(st.inverse_matrices[0]@ == n);
    lemma_linear_eval(c0, c1, vs[0]);
    lemma_linear_eval(c0, c1, vs[1]);
    lemma_linear_eval(c0, c1, vsp[0]);
    lemma_linear_eval(c0, c1, vsp[1]);
    assert(mat_canonical(m));
    lemma_inverse_law(m, (c0, c1));
    let c = seq![c0, c1];
    let e = seq![poly_eval(c, st.s[0].value()), poly_eval(c, st.s[1].value())];
    assert((e[0], e[1]) == apply(m, (c0, c1)));
    let h0 = Seq::new(1, |j: int| apply(st.matrices[j]@, (e[j], e[j + 1])).0);
    let h1 = Seq::new(1, |j: int| apply(st.matrices[j]@, (e[j], e[j + 1])).1);
    assert(h0 =~= seq![c0]);
    assert(h1 =~= seq![c1]);
    assert(extend_spec(p, k + 1, h0) == h0);
    assert(extend_spec(p, k + 1, h1) == h1);
    let out = extend_spec(p, k, e);
    assert(out =~= seq![poly_eval(c, st.s_prime[0].value()), poly_eval(c, st.s_prime[1].value())]);
}

/// Sequences of canonical field elements with the same values are identical
/// bit for bit: as the contracts of `extend` and `evaluate_over_domain`
/// fix the values of their results, repeated calls on the same input give
/// the same limbs.
pub proof fn lemma_results_bit_identical(a: Seq<Fe>, b: Seq<Fe>)
    requires
        all_wf(a),
        all_wf(b),
        values(a) == values(b),
    ensures
        a.len() == b.len(),
        forall|k: int| 0 <= k < a.len() ==> (#[trigger] a[k]).limbs@ == b[k].limbs@,
{
    assert(values(a).len() == a.len() && values(b).len() == b.len());
    assert forall|k: int| 0 <= k < a.len() implies (#[trigger] a[k]).limbs@ == b[k].limbs@ by {
        assert(values(a)[k] == a[k].value() && values(b)[k] == b[k].value());
        assert(values(a)[k] == values(b)[k]);
        lemma_limbs_unique(a[k].limbs, b[k].limbs);
    }
}

/// Distinct exponents give distinct powers of two.
proof fn lemma_pow2_injective(a: nat, b: nat)
    requires
        pow2(a) == pow2(b),
    ensures
        a == b,
{
    if a < b {
        vstd::arithmetic::power2::lemma_pow2_strictly_increases(a, b);
    } else if b < a {
        vstd::arithmetic::power2::lemma_pow2_strictly_increases(b, a);
    }
}

/// The trees of a coset of `2^m` points and of each of its sub-cosets.
/// Fails with `LengthMismatch` when the coset is not a power of two in size
/// or there are too few isogenies, and with `DivisionByZero` when an
/// isogeny or a pair matrix degenerates on one of the cosets.
pub fn precompute(coset: &[Fe], isogenies: &[Isogeny]) -> (r: Result<EcFftPrecomputation, EcFftError>)
    requires
        all_wf(coset@),
        forall|k: int| 0 <= k < isogenies.len() ==> #[trigger] isogenies[k].wf(),
    ensures
        r == Err::<EcFftPrecomputation, EcFftError>(EcFftError::LengthMismatch) <==> (forall|l: nat|
            #[trigger] pow2(l) != coset.len()) || exists|l: nat|
            #[trigger] pow2(l) == coset.len() && isogenies.len() < levels(l),
        r is Ok <==> exists|l: nat|
            #[trigger] pow2(l) == coset.len() && isogenies.len() >= levels(l) && all_buildable(
                coset@,
                isogenies@,
                l,
            ),
        r is Err ==> r == Err::<EcFftPrecomputation, EcFftError>(EcFftError::LengthMismatch) || r
            == Err::<EcFftPrecomputation, EcFftError>(EcFftError::DivisionByZero),
        r matches Ok(p) ==> {
            &&& p.wf()
            &&& p.domains[0]@ == coset@
            &&& forall|i: int|
                0 <= i < p.domains.len() ==> is_tree_of(
                    #[trigger] p.coset_precomputations[i],
                    p.domains[i]@,
                    isogenies@,
                )
        },
{
    let log = match log2_exact(coset.len()) {
        None => {
            return Err(EcFftError::LengthMismatch);
        },
        Some(l) => l,
    };
    proof {
        assert forall|l: nat| #[trigger] pow2(l) == coset.len() implies l == log by {
            lemma_pow2_injective(l, log as nat);
        }
        lemma2_to64();
    }
    let total: usize = if log == 0 { 0 } else { log - 1 };
    if isogenies.len() < total {
        return Err(EcFftError::LengthMismatch);
    }
    let mut domains: Vec<Vec<Fe>> = Vec::new();
    let mut cps: Vec<EcFftCosetPrecomputation> = Vec::new();
    let mut d = vstd::slice::slice_to_vec(coset);
    let mut i: usize = 0;
    while i <= log
        invariant
            log < 64,
            coset.len() == pow2(log as nat),
            forall|l: nat| #[trigger] pow2(l) == coset.len() ==> l == log,
            levels(log as nat) <= isogenies.len(),
            forall|q: int| 0 <= q < isogenies.len() ==> #[trigger] isogenies[q].wf(),
            0 <= i <= log + 1,
            i <= log ==> d.len() == pow2((log - i) as nat),
            all_wf(d@),
            domains.len() == i,
            cps.len() == i,
            i == 0 ==> d@ == coset@,
            i > 0 ==> domains[0]@ == coset@,
            i > 0 ==> d@ == evens(domains[i - 1]@),
            forall|q: int|
                0 <= q < i ==> {
                    &&& #[trigger] domains[q].len() == pow2((log - q) as nat)
                    &&& all_wf(domains[q]@)
                    &&& cps[q].wf()
                    &&& cps[q].steps.len() == levels((log - q) as nat)
                    &&& is_tree_of(cps[q], domains[q]@, isogenies@)
                },
            forall|q: int| 0 <= q < i - 1 ==> #[trigger] domains[q + 1]@ == evens(domains[q]@),
            d@ == halvings(coset@, i as nat),
            forall|q: nat|
                q < i ==> buildable(#[trigger] halvings(coset@, q), isogenies@, levels((log - q) as nat)),
        decreases log + 1 - i,
    {
        let ghost m = (log - i) as nat;
        proof {
            if m > 0 {
                vstd::arithmetic::power2::lemma_pow2_strictly_increases((m - 1) as nat, m);
            }
            assert forall|l: nat| #[trigger] pow2(l) == d.len() implies l == m by {
                lemma_pow2_injective(l, m);
            }
            assert(levels(m) <= levels(log as nat));
        }
        let cp = match precompute_on_coset(&d, isogenies) {
            Ok(cp) => cp,
            Err(e) => {
                proof {
                    assert(pow2(m) == d.len());
                    assert(!buildable(halvings(coset@, i as nat), isogenies@, levels(m)));
                    assert(!all_buildable(coset@, isogenies@, log as nat));
                }
                return Err(e);
            },
        };
        proof {
            lemma2_to64();
            let st = cp.steps.len() as nat;
            if d.len() == pow2(st + 1) {
                lemma_pow2_injective(st + 1, m);
            } else {
                assert(pow2(0) == 1);
                lemma_pow2_injective(0, m);
            }
            assert(cp.steps.len() == levels(m));
        }
        let (next, _) = split_even_odd(&d);
        let ghost old_domains = domains@;
        let ghost old_cps = cps@;
        let ghost old_d = d@;
        proof {
            assert(buildable(halvings(coset@, i as nat), isogenies@, levels(m)));
            assert(next@ == halvings(coset@, (i + 1) as nat));
        }
        cps.push(cp);
        domains.push(d);
        d = next;
        proof {
            assert(domains[i as int]@ == old_d);
            assert forall|q: int| 0 <= q < i implies #[trigger] domains[q] == old_domains[q] && cps[q] == old_cps[q] by {}
            assert(cps[i as int] == cp);
            if m > 0 {
                lemma_pow2_unfold(m);
            }
        }
        i += 1;
    }
    let p = EcFftPrecomputation { domains, coset_precomputations: cps };
    proof {
        assert(all_buildable(coset@, isogenies@, log as nat));
        assert(p.top() == log);
        assert forall|q: int| 0 <= q < p.top() implies #[trigger] p.domains[q + 1]@ == evens(p.domains[q]@) by {}
        assert forall|q: int| 0 <= q < p.domains.len() implies is_tree_of(
            #[trigger] p.coset_precomputations[q],
            p.domains[q]@,
            isogenies@,
        ) by {
            assert(p.domains[q].len() == pow2((log - q) as nat));
        }
        assert(p.wf());
    }
    Ok(p)
}

} // verus!
