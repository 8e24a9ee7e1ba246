use crate::error::ArithError;
use crate::field::FieldElement;
use crate::polynomial::{elems_over, eval, interpolable, vals, Polynomial};
use crate::r1cs::{lc_coeff, Constraint, ConstraintSystem, Variable};
use vstd::arithmetic::div_mod::lemma_small_mod;
use vstd::prelude::*;

verus! {

/// Per-variable polynomials of the three constraint matrices: evaluated at
/// `k`, polynomial `i` gives the coefficient of variable `i` in constraint `k`.
#[derive(Debug, Clone)]
pub struct Qap {
    pub a_polys: Vec<Polynomial>,
    pub b_polys: Vec<Polynomial>,
    pub c_polys: Vec<Polynomial>,
}

/// Which of the three linear combinations of a constraint is read.
#[derive(Clone, Copy, PartialEq, Eq, Structural)]
enum Matrix {
    A,
    B,
    C,
}

/// The terms of matrix `mtx` (0, 1, 2 for A, B, C) in constraint `c`.
pub open spec fn matrix_terms(c: Constraint, mtx: int) -> Seq<(Variable, FieldElement)> {
    if mtx == 0 {
        c.a.terms@
    } else if mtx == 1 {
        c.b.terms@
    } else {
        c.c.terms@
    }
}

/// Column `i` of matrix `mtx`: the coefficient of variable `i` in each constraint.
pub open spec fn column(cs: ConstraintSystem, mtx: int, i: int, p: int) -> Seq<int> {
    Seq::new(
        cs.constraints.len() as nat,
        |k: int| lc_coeff(matrix_terms(cs.constraints@[k], mtx), i, p),
    )
}

/// Every coefficient in every constraint is a residue modulo `p`.
pub open spec fn coeffs_over(cs: ConstraintSystem, p: int) -> bool {
    forall|k: int, mtx: int, j: int|
        0 <= k < cs.constraints.len() && 0 <= mtx < 3 && 0 <= j < matrix_terms(
            cs.constraints@[k],
            mtx,
        ).len() ==> {
            let t = #[trigger] matrix_terms(cs.constraints@[k], mtx)[j];
            t.1.wf() && t.1.p == p
        }
}

/// Every column that has to be interpolated can be.
pub open spec fn columns_interpolable(cs: ConstraintSystem, p: int) -> bool {
    forall|i: int, mtx: int|
        0 <= i < cs.next_var_index && 0 <= mtx < 3 ==> interpolable(#[trigger] column(cs, mtx, i, p), p)
}

/// The polynomials of matrix `mtx` reproduce its columns at the constraint indices.
pub open spec fn reproduces(polys: Seq<Polynomial>, cs: ConstraintSystem, mtx: int, p: int) -> bool {
    &&& polys.len() == cs.next_var_index
    &&& forall|i: int|
        0 <= i < polys.len() ==> (#[trigger] polys[i]).over(p) && polys[i].coefficients.len()
            <= cs.constraints.len()
    &&& forall|i: int, k: int|
        0 <= i < polys.len() && 0 <= k < cs.constraints.len() ==> #[trigger] eval(
            polys[i]@,
            k,
            p,
        ) == lc_coeff(matrix_terms(cs.constraints@[k], mtx), i, p)
}

impl Qap {
    /// Interpolates every column of the three constraint matrices over the
    /// modulus of the constant slot.
    pub fn from_r1cs(cs: &ConstraintSystem) -> (r: Result<Qap, ArithError>)
        requires
            cs.wf(),
        ensures
            !cs.assigned(0) ==> r == Err::<Qap, ArithError>(ArithError::UnassignedVariable),
            cs.assigned(0) && !coeffs_over(*cs, cs.one_modulus() as int) ==> r == Err::<
                Qap,
                ArithError,
            >(ArithError::FieldMismatch),
            cs.assigned(0) && coeffs_over(*cs, cs.one_modulus() as int) ==> (r is Ok
                <==> columns_interpolable(*cs, cs.one_modulus() as int)),
            r is Err && cs.assigned(0) && coeffs_over(*cs, cs.one_modulus() as int) ==> r == Err::<
                Qap,
                ArithError,
            >(ArithError::NoInverse),
            r matches Ok(q) ==> {
                let p = cs.one_modulus() as int;
                &&& reproduces(q.a_polys@, *cs, 0, p)
                &&& reproduces(q.b_polys@, *cs, 1, p)
                &&& reproduces(q.c_polys@, *cs, 2, p)
            },
    {
        if cs.assignments.len() == 0 {
            return Err(ArithError::UnassignedVariable);
        }
        let p = match cs.assignments[0] {
            Some(v) => v.p,
            None => {
                return Err(ArithError::UnassignedVariable);
            },
        };
        let ghost m = p as int;
        if !check_coeffs(cs, p) {
            return Err(ArithError::FieldMismatch);
        }
        let num_vars = cs.next_var_index;
        let mut a_polys: Vec<Polynomial> = Vec::new();
        let mut b_polys: Vec<Polynomial> = Vec::new();
        let mut c_polys: Vec<Polynomial> = Vec::new();
        let mut i: usize = 0;
        while i < num_vars
            invariant
                i <= num_vars,
                num_vars == cs.next_var_index,
                cs.wf(),
                cs.assigned(0),
                m == p as int,
                m == cs.one_modulus(),
                m > 0,
                coeffs_over(*cs, m),
                a_polys.len() == i,
                b_polys.len() == i,
                c_polys.len() == i,
                forall|j: int, mtx: int|
                    0 <= j < i && 0 <= mtx < 3 ==> interpolable(#[trigger] column(*cs, mtx, j, m), m),
                reproduces_upto(a_polys@, *cs, 0, m),
                reproduces_upto(b_polys@, *cs, 1, m),
                reproduces_upto(c_polys@, *cs, 2, m),
            decreases num_vars - i,
        {
            let pa = interpolate_column(cs, i, Matrix::A, p)?;
            let pb = interpolate_column(cs, i, Matrix::B, p)?;
            let pc = interpolate_column(cs, i, Matrix::C, p)?;
            a_polys.push(pa);
            b_polys.push(pb);
            c_polys.push(pc);
            proof {
                assert forall|j: int, mtx: int| 0 <= j < i + 1 && 0 <= mtx < 3 implies interpolable(
                    #[trigger] column(*cs, mtx, j, m),
                    m,
                ) by {
                    if j == i {
                        assert(mtx == 0 || mtx == 1 || mtx == 2);
                    }
                }
            }
            i = i + 1;
        }
        Ok(Qap { a_polys, b_polys, c_polys })
    }
}

/// `reproduces` for the polynomials built so far.
pub open spec fn reproduces_upto(polys: Seq<Polynomial>, cs: ConstraintSystem, mtx: int, p: int) -> bool {
    &&& forall|i: int|
        0 <= i < polys.len() ==> (#[trigger] polys[i]).over(p) && polys[i].coefficients.len()
            <= cs.constraints.len()
    &&& forall|i: int, k: int|
        0 <= i < polys.len() && 0 <= k < cs.constraints.len() ==> #[trigger] eval(
            polys[i]@,
            k,
            p,
        ) == lc_coeff(matrix_terms(cs.constraints@[k], mtx), i, p)
}

/// The spec index of a matrix selector.
spec fn matrix_index(s: Matrix) -> int {
    match s {
        Matrix::A => 0,
        Matrix::B => 1,
        Matrix::C => 2,
    }
}

/// Interpolates column `var_idx` of matrix `which`.
fn interpolate_column(cs: &ConstraintSystem, var_idx: usize, which: Matrix, p: u64) -> (r: Result<
    Polynomial,
    ArithError,
>)
    requires
        p > 0,
        coeffs_over(*cs, p as int),
    ensures
        r is Ok <==> interpolable(column(*cs, matrix_index(which), var_idx as int, p as int), p as int),
        r is Err ==> r == Err::<Polynomial, ArithError>(ArithError::NoInverse),
        r matches Ok(poly) ==> poly.over(p as int) && poly.coefficients.len() <= cs.constraints.len()
            && forall|k: int|
            0 <= k < cs.constraints.len() ==> #[trigger] eval(poly@, k, p as int) == lc_coeff(
                matrix_terms(cs.constraints@[k], matrix_index(which)),
                var_idx as int,
                p as int,
            ),
{
    let dense = extract_column(cs, var_idx, which, p);
    let ghost col = column(*cs, matrix_index(which), var_idx as int, p as int);
    let r = Polynomial::lagrange_interpolation(&dense);
    proof {
        if dense.len() == 0 {
            assert(interpolable(col, p as int));
            assert(vals(dense@).len() == dense@.len());
            assert(cs.constraints.len() == 0);
            assert(r->Ok_0.coefficients.len() == 0);
            assert(r->Ok_0.over(p as int));
        } else {
            assert(dense@[0].p == p);
            assert(vals(dense@).len() == dense@.len());
            assert(dense@.len() == cs.constraints.len());
            if r is Ok {
                let poly = r->Ok_0;
                assert(poly.over(p as int));
                assert forall|k: int| 0 <= k < cs.constraints.len() implies #[trigger] eval(
                    poly@,
                    k,
                    p as int,
                ) == lc_coeff(
                    matrix_terms(cs.constraints@[k], matrix_index(which)),
                    var_idx as int,
                    p as int,
                ) by {
                    assert(eval(poly@, k, p as int) == dense@[k].value);
                    assert(vals(dense@)[k] == dense@[k].value);
                    assert(col[k] == vals(dense@)[k]);
                }
            }
        }
    }
    r
}

/// Column `var_idx` of matrix `which` as a dense list of field elements,
/// zero where the variable has no term.
fn extract_column(cs: &ConstraintSystem, var_idx: usize, which: Matrix, p: u64) -> (r: Vec<
    FieldElement,
>)
    requires
        p > 0,
        coeffs_over(*cs, p as int),
    ensures
        elems_over(r@, p as int),
        vals(r@) == column(*cs, matrix_index(which), var_idx as int, p as int),
{
    let mut dense: Vec<FieldElement> = Vec::new();
    let mut k: usize = 0;
    let ghost mtx = matrix_index(which);
    while k < cs.constraints.len()
        invariant
            k <= cs.constraints.len(),
            p > 0,
            mtx == matrix_index(which),
            coeffs_over(*cs, p as int),
            elems_over(dense@, p as int),
            dense.len() == k,
            forall|j: int|
                0 <= j < k ==> (#[trigger] dense@[j]).value == lc_coeff(
                    matrix_terms(cs.constraints@[j], mtx),
                    var_idx as int,
                    p as int,
                ),
        decreases cs.constraints.len() - k,
    {
        let c = &cs.constraints[k];
        let lc = match which {
            Matrix::A => &c.a,
            Matrix::B => &c.b,
            Matrix::C => &c.c,
        };
        let ghost terms = lc.terms@;
        assert(terms == matrix_terms(cs.constraints@[k as int], mtx));
        let mut acc = FieldElement::new(0, p);
        let mut j: usize = 0;
        proof {
            assert(terms.subrange(0, 0).len() == 0);
        }
        while j < lc.terms.len()
            invariant
                j <= lc.terms.len(),
                terms == lc.terms@,
                terms == matrix_terms(cs.constraints@[k as int], mtx),
                0 <= mtx < 3,
                k < cs.constraints.len(),
                coeffs_over(*cs, p as int),
                acc.wf(),
                acc.p == p,
                acc.value == lc_coeff(terms.subrange(0, j as int), var_idx as int, p as int),
            decreases lc.terms.len() - j,
        {
            let (v, coeff) = lc.terms[j];
            let ghost prev = acc.value as int;
            proof {
                assert(terms[j as int] == matrix_terms(cs.constraints@[k as int], mtx)[j as int]);
            }
            if v.0 == var_idx {
                acc = acc.add(&coeff).unwrap();
            }
            proof {
                let sub = terms.subrange(0, j as int + 1);
                assert(sub.drop_last() =~= terms.subrange(0, j as int));
                assert(sub.last() == terms[j as int]);
                if v.0 != var_idx {
                    lemma_small_mod(prev as nat, p as nat);
                }
            }
            j = j + 1;
        }
        proof {
            assert(terms.subrange(0, terms.len() as int) =~= terms);
        }
        dense.push(acc);
        k = k + 1;
    }
    proof {
        assert(vals(dense@) =~= column(*cs, matrix_index(which), var_idx as int, p as int));
    }
    dense
}

/// Whether every coefficient of every constraint is a residue modulo `p`.
fn check_coeffs(cs: &ConstraintSystem, p: u64) -> (r: bool)
    ensures
        r == coeffs_over(*cs, p as int),
{
    let mut k: usize = 0;
    while k < cs.constraints.len()
        invariant
            k <= cs.constraints.len(),
            forall|kk: int, mtx: int, j: int|
                0 <= kk < k && 0 <= mtx < 3 && 0 <= j < matrix_terms(cs.constraints@[kk], mtx).len()
                    ==> {
                    let t = #[trigger] matrix_terms(cs.constraints@[kk], mtx)[j];
                    t.1.wf() && t.1.p == p
                },
        decreases cs.constraints.len() - k,
    {
        let c = &cs.constraints[k];
        if !(terms_over(&c.a.terms, p) && terms_over(&c.b.terms, p) && terms_over(&c.c.terms, p)) {
            proof {
                let cc = cs.constraints@[k as int];
                if !terms_over_spec(cc.a.terms@, p) {
                    let j = choose|j: int|
                        0 <= j < cc.a.terms@.len() && !(cc.a.terms@[j].1.wf() && cc.a.terms@[j].1.p
                            == p);
                    assert(matrix_terms(cc, 0)[j] == cc.a.terms@[j]);
                } else if !terms_over_spec(cc.b.terms@, p) {
                    let j = choose|j: int|
                        0 <= j < cc.b.terms@.len() && !(cc.b.terms@[j].1.wf() && cc.b.terms@[j].1.p
                            == p);
                    assert(matrix_terms(cc, 1)[j] == cc.b.terms@[j]);
                } else {
                    let j = choose|j: int|
                        0 <= j < cc.c.terms@.len() && !(cc.c.terms@[j].1.wf() && cc.c.terms@[j].1.p
                            == p);
                    assert(matrix_terms(cc, 2)[j] == cc.c.terms@[j]);
                }
            }
            return false;
        }
        proof {
            let cc = cs.constraints@[k as int];
            assert forall|mtx: int, j: int|
                0 <= mtx < 3 && 0 <= j < matrix_terms(cc, mtx).len() implies {
                let t = #[trigger] matrix_terms(cc, mtx)[j];
                t.1.wf() && t.1.p == p
            } by {
                if mtx == 0 {
                    assert(cc.a.terms@[j] == matrix_terms(cc, mtx)[j]);
                } else if mtx == 1 {
                    assert(cc.b.terms@[j] == matrix_terms(cc, mtx)[j]);
                } else {
                    assert(cc.c.terms@[j] == matrix_terms(cc, mtx)[j]);
                }
            }
        }
        k = k + 1;
    }
    true
}

/// Every coefficient of `terms` is a residue modulo `p`.
spec fn terms_over_spec(terms: Seq<(Variable, FieldElement)>, p: u64) -> bool {
    forall|j: int| 0 <= j < terms.len() ==> (#[trigger] terms[j]).1.wf() && terms[j].1.p == p
}

/// Whether every coefficient of `terms` is a residue modulo `p`.
fn terms_over(terms: &Vec<(Variable, FieldElement)>, p: u64) -> (r: bool)
    ensures
        r == terms_over_spec(terms@, p),
{
    let mut j: usize = 0;
    while j < terms.len()
        invariant
            j <= terms.len(),
            forall|jj: int| 0 <= jj < j ==> (#[trigger] terms@[jj]).1.wf() && terms@[jj].1.p == p,
        decreases terms.len() - j,
    {
        let c = terms[j].1;
        if c.p != p || c.p == 0 || c.value >= c.p {
            return false;
        }
        j = j + 1;
    }
    true
}

} // verus!
