use crate::field::{has_inverse, FieldElement};
use crate::field_laws::is_prime;
use crate::poly_laws::{
    lemma_eval_seq_scale, lemma_eval_trim, lemma_evaluate_add, lemma_evaluate_mul, lemma_evaluate_sub,
    lemma_root_count,
};
use crate::polynomial::{basis_numerator, basis_prod, eval, trim_vals, Polynomial};
use crate::qap::Qap;
use vstd::arithmetic::div_mod::{lemma_add_mod_noop_right, lemma_small_mod};
use vstd::prelude::*;

verus! {

/// `sum_{i < n} w[i] * polys[i](x)` modulo `p`.
pub open spec fn weighted_eval(
    polys: Seq<Polynomial>,
    w: Seq<FieldElement>,
    n: nat,
    x: int,
    p: int,
) -> int
    decreases n,
{
    if n == 0 {
        0
    } else {
        (weighted_eval(polys, w, (n - 1) as nat, x, p) + w[n - 1].value * eval(
            polys[n - 1]@,
            x,
            p,
        )) % p
    }
}

/// `prod_{k < m} (x - k)` modulo `p`.
pub open spec fn vanishing_eval(m: nat, x: int, p: int) -> int {
    basis_prod(m as int, m, x, p)
}

/// `A·B − C == h·Z + rem` at every point, for the witness-weighted
/// combinations `A`, `B`, `C` and the vanishing polynomial `Z` of `m` points.
pub open spec fn divides_with_remainder(
    qap: &Qap,
    w: Seq<FieldElement>,
    m: nat,
    h: Seq<int>,
    rem: Seq<int>,
) -> bool {
    let p = w[0].p as int;
    let n = w.len() as nat;
    forall|x: int|
        #![trigger eval(rem, x, p)]
        (weighted_eval(qap.a_polys@, w, n, x, p) * weighted_eval(qap.b_polys@, w, n, x, p)
            - weighted_eval(qap.c_polys@, w, n, x, p)) % p == (eval(h, x, p) * vanishing_eval(
            m,
            x,
            p,
        ) + eval(rem, x, p)) % p
}

/// The polynomials lie over `p`, one per witness entry, and the witness holds
/// residues modulo `p`.
pub open spec fn witness_fits(polys: Seq<Polynomial>, w: Seq<FieldElement>, p: int) -> bool {
    &&& p > 0
    &&& polys.len() == w.len()
    &&& forall|i: int| 0 <= i < polys.len() ==> (#[trigger] polys[i]).over(p)
    &&& forall|i: int| 0 <= i < w.len() ==> (#[trigger] w[i]).wf() && w[i].p == p
}

/// `sum_i witness[i] * polys[i]`, the witness-weighted combination.
pub fn compose(polys: &Vec<Polynomial>, witness: &Vec<FieldElement>) -> (r: Polynomial)
    requires
        witness.len() > 0,
        witness_fits(polys@, witness@, witness@[0].p as int),
    ensures
        r.over(witness@[0].p as int),
        forall|x: int|
            #[trigger] eval(r@, x, witness@[0].p as int) == weighted_eval(
                polys@,
                witness@,
                polys.len() as nat,
                x,
                witness@[0].p as int,
            ),
{
    let ghost p = witness@[0].p as int;
    let mut acc = Polynomial { coefficients: Vec::new() };
    let mut i: usize = 0;
    while i < polys.len()
        invariant
            i <= polys.len(),
            p == witness@[0].p,
            witness_fits(polys@, witness@, p),
            acc.over(p),
            forall|x: int| #[trigger] eval(acc@, x, p) == weighted_eval(polys@, witness@, i as nat, x, p),
        decreases polys.len() - i,
    {
        let w = witness[i];
        let scaled = polys[i].scale(w);
        let ghost prev = acc@;
        proof {
            assert(polys@[i as int].over(p));
        }
        acc = acc.add(&scaled);
        proof {
            assert forall|x: int| #[trigger] eval(acc@, x, p) == weighted_eval(
                polys@,
                witness@,
                (i + 1) as nat,
                x,
                p,
            ) by {
                lemma_evaluate_add(prev, scaled@, x, p);
                lemma_eval_trim(crate::polynomial::seq_scale(polys@[i as int]@, w.value as int, p), x, p);
                lemma_eval_seq_scale(polys@[i as int]@, w.value as int, x, p);
                lemma_add_mod_noop_right(
                    weighted_eval(polys@, witness@, i as nat, x, p),
                    w.value * eval(polys@[i as int]@, x, p),
                    p,
                );
            }
        }
        i = i + 1;
    }
    acc
}

/// `Z(x) = prod_{k < m} (x - k)`, the monic polynomial of degree `m` that
/// vanishes at every constraint index.
pub fn vanishing_polynomial(m: usize, p: u64) -> (r: Polynomial)
    requires
        p > 1,
    ensures
        r.over(p as int),
        r.coefficients.len() == m + 1,
        r@.last() == 1,
        forall|x: int| #[trigger] eval(r@, x, p as int) == vanishing_eval(m as nat, x, p as int),
        forall|k: int| 0 <= k < m ==> #[trigger] eval(r@, k, p as int) == 0,
{
    let (z, _den) = basis_numerator(m, m, p);
    proof {
        assert forall|k: int| 0 <= k < m implies #[trigger] eval(z@, k, p as int) == 0 by {
            crate::polynomial::lemma_basis_prod_vanishes(m as int, m as nat, k, p as int);
        }
    }
    z
}

/// The divisibility test: with `A`, `B`, `C` the witness-weighted
/// combinations of the QAP polynomials, divides `A·B − C` by the vanishing
/// polynomial of `num_constraints` points and reports whether the remainder
/// is zero. A zero remainder means `A(k)·B(k) == C(k)` at every constraint index.
pub fn check_divisibility(qap: &Qap, witness: &Vec<FieldElement>, num_constraints: usize) -> (r: bool)
    requires
        witness.len() > 0,
        witness@[0].p > 1,
        witness_fits(qap.a_polys@, witness@, witness@[0].p as int),
        witness_fits(qap.b_polys@, witness@, witness@[0].p as int),
        witness_fits(qap.c_polys@, witness@, witness@[0].p as int),
    ensures
        r ==> forall|k: int|
            #![trigger weighted_eval(qap.a_polys@, witness@, witness.len() as nat, k, witness@[0].p as int)]
            0 <= k < num_constraints ==> (weighted_eval(
                qap.a_polys@,
                witness@,
                witness.len() as nat,
                k,
                witness@[0].p as int,
            ) * weighted_eval(
                qap.b_polys@,
                witness@,
                witness.len() as nat,
                k,
                witness@[0].p as int,
            ) - weighted_eval(
                qap.c_polys@,
                witness@,
                witness.len() as nat,
                k,
                witness@[0].p as int,
            )) % (witness@[0].p as int) == 0,
        is_prime(witness@[0].p as int) && num_constraints <= witness@[0].p && (forall|k: int|
            #![trigger weighted_eval(qap.a_polys@, witness@, witness.len() as nat, k, witness@[0].p as int)]
            0 <= k < num_constraints ==> (weighted_eval(
                qap.a_polys@,
                witness@,
                witness.len() as nat,
                k,
                witness@[0].p as int,
            ) * weighted_eval(
                qap.b_polys@,
                witness@,
                witness.len() as nat,
                k,
                witness@[0].p as int,
            ) - weighted_eval(
                qap.c_polys@,
                witness@,
                witness.len() as nat,
                k,
                witness@[0].p as int,
            )) % (witness@[0].p as int) == 0) ==> r,
        !r ==> exists|h: Polynomial, rem: Polynomial|
            #![trigger h@, rem@]
            !rem.is_zero() && rem@.len() <= num_constraints && divides_with_remainder(
                qap,
                witness@,
                num_constraints as nat,
                h@,
                rem@,
            ),
{
    let p = witness[0].p;
    let ghost m = p as int;
    let ghost n = witness.len() as nat;
    let a_x = compose(&qap.a_polys, witness);
    let b_x = compose(&qap.b_polys, witness);
    let c_x = compose(&qap.c_polys, witness);
    let ab = a_x.mul(&b_x);
    proof {
        if a_x.coefficients.len() > 0 {
            assert(a_x.coefficients[0].p == m);
        } else if b_x.coefficients.len() > 0 {
            assert(b_x.coefficients[0].p == m);
        }
    }
    let p_x = ab.sub(&c_x);
    let z_x = vanishing_polynomial(num_constraints, p);
    proof {
        if ab.coefficients.len() > 0 {
            assert(ab.coefficients[0].p == m);
        } else if c_x.coefficients.len() > 0 {
            assert(c_x.coefficients[0].p == m);
        }
        if p_x.coefficients.len() > 0 {
            assert(p_x.coefficients[0].p == m);
        }
        assert(trim_vals(z_x@) == z_x@);
        lemma_small_mod(1, m as nat);
        assert((1int * 1int) % m == 1int % m);
        assert(has_inverse(1int, m));
        assert(!z_x.is_zero()) by {
            assert(z_x@[z_x@.len() - 1] == 1);
        }
        assert forall|x: int| #[trigger] eval(p_x@, x, m) == (weighted_eval(qap.a_polys@, witness@, n, x, m)
            * weighted_eval(qap.b_polys@, witness@, n, x, m) - weighted_eval(
            qap.c_polys@,
            witness@,
            n,
            x,
            m,
        )) % m by {
            lemma_evaluate_sub(ab@, c_x@, x, m);
            lemma_evaluate_mul(a_x@, b_x@, x, m);
            crate::poly_laws::lemma_eval_bound(c_x@, x, m);
            vstd::arithmetic::div_mod::lemma_sub_mod_noop(
                weighted_eval(qap.a_polys@, witness@, n, x, m) * weighted_eval(
                    qap.b_polys@,
                    witness@,
                    n,
                    x,
                    m,
                ),
                weighted_eval(qap.c_polys@, witness@, n, x, m),
                m,
            );
            crate::poly_laws::lemma_eval_bound(c_x@, x, m);
            lemma_small_mod(eval(c_x@, x, m) as nat, m as nat);
        }
    }
    match p_x.div_rem(&z_x) {
        Ok((h, rem)) => {
            let zero = rem_is_zero(&rem);
            proof {
                if zero {
                    assert forall|k: int| 0 <= k < num_constraints implies ((#[trigger] weighted_eval(
                        qap.a_polys@,
                        witness@,
                        n,
                        k,
                        m,
                    ) * weighted_eval(qap.b_polys@, witness@, n, k, m) - weighted_eval(
                        qap.c_polys@,
                        witness@,
                        n,
                        k,
                        m,
                    )) % m) == 0 by {
                        assert(eval(p_x@, k, m) == (eval(h@, k, m) * eval(z_x@, k, m) + eval(rem@, k, m)) % m);
                        crate::polynomial::lemma_eval_all_zero(rem@, k, m);
                        assert(eval(h@, k, m) * 0 == 0) by (nonlinear_arith);
                        lemma_small_mod(0, m as nat);
                    }
                } else {
                    assert(rem@.len() <= num_constraints);
                    if is_prime(m) && num_constraints <= m && (forall|k: int|
                        #![trigger weighted_eval(qap.a_polys@, witness@, n, k, m)]
                        0 <= k < num_constraints ==> (weighted_eval(qap.a_polys@, witness@, n, k, m)
                            * weighted_eval(qap.b_polys@, witness@, n, k, m) - weighted_eval(
                            qap.c_polys@,
                            witness@,
                            n,
                            k,
                            m,
                        )) % m == 0) {
                        assert forall|k: int| 0 <= k < num_constraints implies #[trigger] eval(
                            rem@,
                            k,
                            m,
                        ) == 0 by {
                            assert(eval(p_x@, k, m) == (eval(h@, k, m) * eval(z_x@, k, m) + eval(
                                rem@,
                                k,
                                m,
                            )) % m);
                            assert(eval(z_x@, k, m) == 0);
                            assert(eval(h@, k, m) * 0 == 0) by (nonlinear_arith);
                            crate::poly_laws::lemma_eval_bound(rem@, k, m);
                            lemma_small_mod(eval(rem@, k, m) as nat, m as nat);
                        }
                        assert forall|i: int| 0 <= i < rem@.len() implies 0 <= #[trigger] rem@[i]
                            < m by {
                            assert(rem.coefficients@[i].p == m);
                        }
                        lemma_root_count(rem@, num_constraints as nat, m);
                        assert(rem.is_zero());
                    }
                    assert forall|x: int| #![trigger eval(rem@, x, m)] (weighted_eval(qap.a_polys@, witness@, n, x, m) * weighted_eval(
                        qap.b_polys@,
                        witness@,
                        n,
                        x,
                        m,
                    ) - weighted_eval(qap.c_polys@, witness@, n, x, m)) % m == (eval(h@, x, m)
                        * vanishing_eval(num_constraints as nat, x, m) + eval(rem@, x, m)) % m by {
                        assert(eval(p_x@, x, m) == (eval(h@, x, m) * eval(z_x@, x, m) + eval(rem@, x, m)) % m);
                    }
                }
            }
            zero
        },
        Err(_) => {
            proof {
                assert(false);
            }
            false
        },
    }
}

/// Whether every coefficient of `rem` is zero.
fn rem_is_zero(rem: &Polynomial) -> (r: bool)
    ensures
        r == rem.is_zero(),
{
    let mut i: usize = 0;
    while i < rem.coefficients.len()
        invariant
            i <= rem.coefficients.len(),
            forall|k: int| 0 <= k < i ==> #[trigger] rem@[k] == 0,
        decreases rem.coefficients.len() - i,
    {
        if rem.coefficients[i].value != 0 {
            assert(rem@[i as int] == rem.coefficients@[i as int].value);
            return false;
        }
        i = i + 1;
    }
    true
}

} // verus!
