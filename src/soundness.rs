use crate::field::FieldElement;
use crate::polynomial::{eval, Polynomial};
use crate::protocol::{weighted_eval, witness_fits};
use crate::qap::{coeffs_over, matrix_terms, reproduces, Qap};
use crate::r1cs::{constraint_holds, lc_coeff, lc_evaluable, lc_value, ConstraintSystem, Variable};
use vstd::arithmetic::div_mod::{
    lemma_add_mod_noop, lemma_add_mod_noop_right, lemma_fundamental_div_mod, lemma_mod_bound,
    lemma_mod_twice, lemma_small_mod, lemma_sub_mod_noop,
};
use vstd::arithmetic::mul::{lemma_mul_is_commutative, lemma_mul_is_distributive_add};
use vstd::prelude::*;

verus! {

/// `sum_{i < n} w[i] * f(i)` modulo `p`.
pub open spec fn wsum(w: Seq<FieldElement>, f: spec_fn(int) -> int, n: nat, p: int) -> int
    decreases n,
{
    if n == 0 {
        0
    } else {
        (wsum(w, f, (n - 1) as nat, p) + w[n - 1].value * f(n - 1)) % p
    }
}

/// Every variable named in a constraint is below `n`.
pub open spec fn vars_below(cs: ConstraintSystem, n: nat) -> bool {
    forall|k: int, mtx: int, j: int|
        0 <= k < cs.constraints.len() && 0 <= mtx < 3 && 0 <= j < matrix_terms(
            cs.constraints@[k],
            mtx,
        ).len() ==> (#[trigger] matrix_terms(cs.constraints@[k], mtx)[j]).0.0 < n
}

/// Weighted sums only read the weights below `n`.
proof fn lemma_wsum_ext(w: Seq<FieldElement>, f: spec_fn(int) -> int, g: spec_fn(int) -> int, n: nat, p: int)
    requires
        forall|i: int| 0 <= i < n ==> #[trigger] f(i) == g(i),
    ensures
        wsum(w, f, n, p) == wsum(w, g, n, p),
    decreases n,
{
    if n > 0 {
        lemma_wsum_ext(w, f, g, (n - 1) as nat, p);
        assert(f(n - 1) == g(n - 1));
    }
}

/// A weighted sum is additive in the summed function.
proof fn lemma_wsum_add(
    w: Seq<FieldElement>,
    f: spec_fn(int) -> int,
    g: spec_fn(int) -> int,
    h: spec_fn(int) -> int,
    n: nat,
    p: int,
)
    requires
        p > 0,
        forall|i: int| 0 <= i < n ==> #[trigger] h(i) == (f(i) + g(i)) % p,
    ensures
        wsum(w, h, n, p) == (wsum(w, f, n, p) + wsum(w, g, n, p)) % p,
    decreases n,
{
    if n == 0 {
        lemma_small_mod(0, p as nat);
    } else {
        let m = (n - 1) as nat;
        lemma_wsum_add(w, f, g, h, m, p);
        let wi = w[n - 1].value as int;
        let (fv, gv) = (f(n - 1), g(n - 1));
        let (sf, sg) = (wsum(w, f, m, p), wsum(w, g, m, p));
        assert(h(n - 1) == (fv + gv) % p);
        crate::poly_laws::lemma_mod_affine_raw((sf + sg) % p, wi, fv + gv, p);
        lemma_add_mod_noop_right(wi * (fv + gv), sf + sg, p);
        lemma_mul_is_distributive_add(wi, fv, gv);
        lemma_add_mod_noop(sf + wi * fv, sg + wi * gv, p);
    }
}

/// A weighted sum of an indicator picks out one weight.
proof fn lemma_wsum_indicator(w: Seq<FieldElement>, f: spec_fn(int) -> int, v: int, c: int, n: nat, p: int)
    requires
        p > 0,
        0 <= v,
        forall|i: int| 0 <= i < n ==> #[trigger] f(i) == if i == v {
            c
        } else {
            0
        },
    ensures
        wsum(w, f, n, p) == if v < n {
            (w[v].value * c) % p
        } else {
            0
        },
    decreases n,
{
    if n == 0 {
    } else {
        let m = (n - 1) as nat;
        lemma_wsum_indicator(w, f, v, c, m, p);
        let wi = w[n - 1].value as int;
        if n - 1 == v {
            assert(f(n - 1) == c);
            assert(wsum(w, f, m, p) == 0);
        } else {
            assert(f(n - 1) == 0);
            assert(wi * 0 == 0) by (nonlinear_arith);
            if v < m {
                lemma_mod_twice(w[v].value * c, p);
            } else {
                lemma_small_mod(0, p as nat);
            }
        }
    }
}

/// Summing the coefficients of a combination against the witness gives
/// the combination's value.
pub proof fn lemma_wsum_lc(terms: Seq<(Variable, FieldElement)>, w: Seq<FieldElement>, n: nat, p: int)
    requires
        p > 0,
        forall|j: int| 0 <= j < terms.len() ==> (#[trigger] terms[j]).0.0 < n,
    ensures
        wsum(w, |i: int| lc_coeff(terms, i, p), n, p) == lc_value(terms, w, p),
    decreases terms.len(),
{
    let f = |i: int| lc_coeff(terms, i, p);
    if terms.len() == 0 {
        lemma_wsum_indicator(w, f, 0, 0, n, p);
        if 0 < n {
            assert(w[0].value * 0 == 0) by (nonlinear_arith);
            lemma_small_mod(0, p as nat);
        }
    } else {
        let t = terms.drop_last();
        let (v, c) = (terms.last().0.0 as int, terms.last().1.value as int);
        assert forall|j: int| 0 <= j < t.len() implies (#[trigger] t[j]).0.0 < n by {
            assert(t[j] == terms[j]);
        }
        lemma_wsum_lc(t, w, n, p);
        let g = |i: int| lc_coeff(t, i, p);
        let d = |i: int| if i == v {
            c
        } else {
            0
        };
        lemma_wsum_add(w, g, d, f, n, p);
        lemma_wsum_indicator(w, d, v, c, n, p);
        assert(terms[terms.len() - 1].0.0 < n);
        lemma_mul_is_commutative(c, w[v].value as int);
        lemma_add_mod_noop_right(lc_value(t, w, p), w[v].value * c, p);
    }
}

/// If `(x - y) % p == 0` and `y` is a residue, then `x % p == y`.
proof fn lemma_mod_diff_zero(x: int, y: int, p: int)
    requires
        p > 0,
        0 <= y < p,
        (x - y) % p == 0,
    ensures
        x % p == y,
{
    lemma_sub_mod_noop(x, y, p);
    lemma_small_mod(y as nat, p as nat);
    lemma_mod_bound(x, p);
    let d = x % p - y;
    assert(-p < d < p);
    if d != 0 {
        if d > 0 {
            lemma_small_mod(d as nat, p as nat);
        } else {
            lemma_fundamental_div_mod(d, p);
            let q = d / p;
            assert(d == p * q + d % p);
            assert(d % p == 0);
            if q >= 0 {
                assert(p * q >= 0) by (nonlinear_arith)
                    requires
                        q >= 0,
                        p > 0,
                ;
            } else {
                assert(p * q <= -p) by (nonlinear_arith)
                    requires
                        q <= -1,
                        p > 0,
                ;
            }
        }
    }
}

/// Soundness of the divisibility test: when `A(k)·B(k) − C(k)` vanishes at
/// every constraint index (as a zero remainder from `check_divisibility`
/// guarantees), every constraint of the system holds under the witness.
pub proof fn lemma_divisibility_implies_satisfied(cs: ConstraintSystem, qap: Qap, w: Seq<FieldElement>)
    requires
        w.len() > 0,
        w.len() == cs.next_var_index,
        witness_fits(qap.a_polys@, w, w[0].p as int),
        witness_fits(qap.b_polys@, w, w[0].p as int),
        witness_fits(qap.c_polys@, w, w[0].p as int),
        coeffs_over(cs, w[0].p as int),
        vars_below(cs, w.len() as nat),
        reproduces(qap.a_polys@, cs, 0, w[0].p as int),
        reproduces(qap.b_polys@, cs, 1, w[0].p as int),
        reproduces(qap.c_polys@, cs, 2, w[0].p as int),
        forall|k: int|
            #![trigger weighted_eval(qap.a_polys@, w, w.len() as nat, k, w[0].p as int)]
            0 <= k < cs.constraints.len() ==> (weighted_eval(
                qap.a_polys@,
                w,
                w.len() as nat,
                k,
                w[0].p as int,
            ) * weighted_eval(qap.b_polys@, w, w.len() as nat, k, w[0].p as int) - weighted_eval(
                qap.c_polys@,
                w,
                w.len() as nat,
                k,
                w[0].p as int,
            )) % (w[0].p as int) == 0,
    ensures
        forall|k: int| 0 <= k < cs.constraints.len() ==> constraint_holds(#[trigger] cs.constraints@[k], w),
{
    let p = w[0].p as int;
    let n = w.len() as nat;
    assert forall|k: int| 0 <= k < cs.constraints.len() implies constraint_holds(
        #[trigger] cs.constraints@[k],
        w,
    ) by {
        let c = cs.constraints@[k];
        assert(matrix_terms(c, 0) == c.a.terms@);
        assert(matrix_terms(c, 1) == c.b.terms@);
        assert(matrix_terms(c, 2) == c.c.terms@);
        let av = lemma_matrix_value(cs, qap.a_polys@, w, k, 0);
        let bv = lemma_matrix_value(cs, qap.b_polys@, w, k, 1);
        let cv = lemma_matrix_value(cs, qap.c_polys@, w, k, 2);
        lemma_lc_value_bound(c.c.terms@, w, p);
        lemma_mod_diff_zero(
            lc_value(c.a.terms@, w, p) * lc_value(c.b.terms@, w, p),
            lc_value(c.c.terms@, w, p),
            p,
        );
        lemma_evaluable(cs, w, k, 0);
        lemma_evaluable(cs, w, k, 1);
        lemma_evaluable(cs, w, k, 2);
    }
}

/// Completeness of the divisibility test: when every constraint holds under
/// the witness, `A(k)·B(k) − C(k)` vanishes at every constraint index, so
/// (over a prime field with at most `p` constraints) `check_divisibility`
/// reports a zero remainder.
pub proof fn lemma_satisfied_implies_vanishing(cs: ConstraintSystem, qap: Qap, w: Seq<FieldElement>)
    requires
        w.len() > 0,
        witness_fits(qap.a_polys@, w, w[0].p as int),
        witness_fits(qap.b_polys@, w, w[0].p as int),
        witness_fits(qap.c_polys@, w, w[0].p as int),
        vars_below(cs, w.len() as nat),
        reproduces(qap.a_polys@, cs, 0, w[0].p as int),
        reproduces(qap.b_polys@, cs, 1, w[0].p as int),
        reproduces(qap.c_polys@, cs, 2, w[0].p as int),
        forall|k: int| 0 <= k < cs.constraints.len() ==> constraint_holds(#[trigger] cs.constraints@[k], w),
    ensures
        forall|k: int|
            #![trigger weighted_eval(qap.a_polys@, w, w.len() as nat, k, w[0].p as int)]
            0 <= k < cs.constraints.len() ==> (weighted_eval(
                qap.a_polys@,
                w,
                w.len() as nat,
                k,
                w[0].p as int,
            ) * weighted_eval(qap.b_polys@, w, w.len() as nat, k, w[0].p as int) - weighted_eval(
                qap.c_polys@,
                w,
                w.len() as nat,
                k,
                w[0].p as int,
            )) % (w[0].p as int) == 0,
{
    let p = w[0].p as int;
    assert forall|k: int| 0 <= k < cs.constraints.len() implies (#[trigger] weighted_eval(
        qap.a_polys@,
        w,
        w.len() as nat,
        k,
        p,
    ) * weighted_eval(qap.b_polys@, w, w.len() as nat, k, p) - weighted_eval(
        qap.c_polys@,
        w,
        w.len() as nat,
        k,
        p,
    )) % p == 0 by {
        let c = cs.constraints@[k];
        assert(constraint_holds(c, w));
        assert(matrix_terms(c, 0) == c.a.terms@);
        assert(matrix_terms(c, 1) == c.b.terms@);
        assert(matrix_terms(c, 2) == c.c.terms@);
        lemma_matrix_value(cs, qap.a_polys@, w, k, 0);
        lemma_matrix_value(cs, qap.b_polys@, w, k, 1);
        lemma_matrix_value(cs, qap.c_polys@, w, k, 2);
        let av = lc_value(c.a.terms@, w, p);
        let bv = lc_value(c.b.terms@, w, p);
        let cv = lc_value(c.c.terms@, w, p);
        lemma_lc_value_bound(c.c.terms@, w, p);
        lemma_small_mod(cv as nat, p as nat);
        lemma_sub_mod_noop(av * bv, cv, p);
        lemma_small_mod(0, p as nat);
    }
}

/// A combination's value is a residue.
proof fn lemma_lc_value_bound(terms: Seq<(Variable, FieldElement)>, w: Seq<FieldElement>, p: int)
    requires
        p > 0,
    ensures
        0 <= lc_value(terms, w, p) < p,
{
    if terms.len() > 0 {
        lemma_mod_bound(lc_value(terms.drop_last(), w, p) + terms.last().1.value * w[terms.last().0.0 as int].value, p);
    } else {
        lemma_small_mod(0, p as nat);
    }
}

/// The witness-weighted QAP polynomials of matrix `mtx` evaluate, at
/// constraint index `k`, to the value of that constraint's combination.
proof fn lemma_matrix_value(cs: ConstraintSystem, polys: Seq<Polynomial>, w: Seq<FieldElement>, k: int, mtx: int) -> (r: ())
    requires
        w.len() > 0,
        witness_fits(polys, w, w[0].p as int),
        vars_below(cs, w.len() as nat),
        reproduces(polys, cs, mtx, w[0].p as int),
        0 <= k < cs.constraints.len(),
        0 <= mtx < 3,
    ensures
        weighted_eval(polys, w, w.len() as nat, k, w[0].p as int) == lc_value(
            matrix_terms(cs.constraints@[k], mtx),
            w,
            w[0].p as int,
        ),
{
    let p = w[0].p as int;
    let n = w.len() as nat;
    let terms = matrix_terms(cs.constraints@[k], mtx);
    let f = |i: int| lc_coeff(terms, i, p);
    let e = |i: int| eval(polys[i]@, k, p);
    lemma_weighted_eval_is_wsum(polys, w, n, k, p);
    assert forall|i: int| 0 <= i < n implies #[trigger] e(i) == f(i) by {
        assert(eval(polys[i]@, k, p) == lc_coeff(matrix_terms(cs.constraints@[k], mtx), i, p));
    }
    lemma_wsum_ext(w, e, f, n, p);
    assert forall|j: int| 0 <= j < terms.len() implies (#[trigger] terms[j]).0.0 < n by {
        assert(matrix_terms(cs.constraints@[k], mtx)[j] == terms[j]);
    }
    lemma_wsum_lc(terms, w, n, p);
}

/// `weighted_eval` is a weighted sum of the polynomials' values.
proof fn lemma_weighted_eval_is_wsum(polys: Seq<Polynomial>, w: Seq<FieldElement>, n: nat, x: int, p: int)
    ensures
        weighted_eval(polys, w, n, x, p) == wsum(w, |i: int| eval(polys[i]@, x, p), n, p),
    decreases n,
{
    if n > 0 {
        lemma_weighted_eval_is_wsum(polys, w, (n - 1) as nat, x, p);
    }
}

/// Each combination of a constraint can be evaluated under the witness.
proof fn lemma_evaluable(cs: ConstraintSystem, w: Seq<FieldElement>, k: int, mtx: int)
    requires
        w.len() > 0,
        forall|i: int| 0 <= i < w.len() ==> (#[trigger] w[i]).wf() && w[i].p == w[0].p,
        coeffs_over(cs, w[0].p as int),
        vars_below(cs, w.len() as nat),
        0 <= k < cs.constraints.len(),
        0 <= mtx < 3,
    ensures
        lc_evaluable(matrix_terms(cs.constraints@[k], mtx), w),
{
    let terms = matrix_terms(cs.constraints@[k], mtx);
    assert(w[0].wf());
    assert forall|j: int| 0 <= j < terms.len() implies {
        let t = #[trigger] terms[j];
        &&& t.0.0 < w.len()
        &&& t.1.wf()
        &&& t.1.p == w[0].p
        &&& w[t.0.0 as int].wf()
        &&& w[t.0.0 as int].p == w[0].p
    } by {
        assert(matrix_terms(cs.constraints@[k], mtx)[j] == terms[j]);
        let v = terms[j].0.0 as int;
        assert(w[v].wf());
    }
}

} // verus!
