use crate::error::ArithError;
use crate::field::{has_inverse, FieldElement};
use crate::poly_laws::{
    is_division, lemma_coef_add, lemma_coef_mul_trim, lemma_coef_mul_update_zero,
    lemma_coef_mul_zero, lemma_coef_sub, lemma_coef_trim, lemma_division_step, lemma_eval_bound, lemma_eval_seq_scale, lemma_eval_seq_sub,
    lemma_eval_shift_k, lemma_eval_trim, lemma_eval_update_zero, lemma_evaluate_add,
    lemma_evaluate_mul, lemma_mod_affine, lemma_seq_mul_shape, lemma_trim_len, lemma_trim_zero,
    zeros,
};
use vstd::arithmetic::div_mod::{
    lemma_add_mod_noop, lemma_add_mod_noop_right, lemma_mod_twice, lemma_mul_mod_noop_right,
    lemma_small_mod,
    lemma_sub_mod_noop,
};
use vstd::arithmetic::mul::{lemma_mul_is_associative, lemma_mul_is_commutative};
use vstd::arithmetic::power::pow;
use vstd::prelude::*;

verus! {

/// A dense univariate polynomial: `coefficients[i]` weighs `x^i`.
///
/// The canonical form has a nonzero last coefficient, except for the zero
/// polynomial, written `[0]`; an empty coefficient list also stands for zero.
#[derive(Debug, Clone, PartialEq, Eq)]
pub struct Polynomial {
    pub coefficients: Vec<FieldElement>,
}

impl View for Polynomial {
    type V = Seq<int>;

    /// The coefficient values, lowest degree first.
    open spec fn view(&self) -> Seq<int> {
        vals(self.coefficients@)
    }
}

/// The residues of a sequence of field elements.
pub open spec fn vals(s: Seq<FieldElement>) -> Seq<int> {
    s.map_values(|c: FieldElement| c.value as int)
}

/// Coefficient `i` of `s`, zero beyond its end.
pub open spec fn coef(s: Seq<int>, i: int) -> int {
    if 0 <= i < s.len() {
        s[i]
    } else {
        0
    }
}

/// The value of the polynomial `s` at `x`, reduced modulo `p`.
pub open spec fn eval(s: Seq<int>, x: int, p: int) -> int
    decreases s.len(),
{
    if s.len() == 0 {
        0
    } else {
        (s[0] + x * eval(s.drop_first(), x, p)) % p
    }
}

/// `s` without its trailing zero coefficients, keeping at least one coefficient.
pub open spec fn trim_vals(s: Seq<int>) -> Seq<int>
    decreases s.len(),
{
    if s.len() > 1 && s.last() == 0 {
        trim_vals(s.drop_last())
    } else {
        s
    }
}

/// `s` has no trailing zero coefficient beyond the first.
pub open spec fn is_trimmed(s: Seq<int>) -> bool {
    s.len() <= 1 || s.last() != 0
}

/// Coefficientwise sum modulo `p` over the longer of the two lengths.
pub open spec fn seq_add(a: Seq<int>, b: Seq<int>, p: int) -> Seq<int> {
    Seq::new(
        if a.len() >= b.len() {
            a.len()
        } else {
            b.len()
        },
        |i: int| (coef(a, i) + coef(b, i)) % p,
    )
}

/// Coefficientwise difference modulo `p` over the longer of the two lengths.
pub open spec fn seq_sub(a: Seq<int>, b: Seq<int>, p: int) -> Seq<int> {
    Seq::new(
        if a.len() >= b.len() {
            a.len()
        } else {
            b.len()
        },
        |i: int| (coef(a, i) - coef(b, i)) % p,
    )
}

/// Every coefficient multiplied by `k` modulo `p`.
pub open spec fn seq_scale(a: Seq<int>, k: int, p: int) -> Seq<int> {
    Seq::new(a.len(), |i: int| (a[i] * k) % p)
}

/// The product of two coefficient sequences modulo `p`, of length
/// `len(a) + len(b) - 1` (empty when either is empty).
pub open spec fn seq_mul(a: Seq<int>, b: Seq<int>, p: int) -> Seq<int>
    decreases a.len(),
{
    if a.len() == 0 || b.len() == 0 {
        Seq::empty()
    } else if a.len() == 1 {
        seq_scale(b, a[0], p)
    } else {
        seq_add(seq_scale(b, a[0], p), seq![0int].add(seq_mul(a.drop_first(), b, p)), p)
    }
}

/// Every element is a residue modulo the positive modulus `p`.
pub open spec fn elems_over(s: Seq<FieldElement>, p: int) -> bool {
    &&& p > 0
    &&& forall|i: int| 0 <= i < s.len() ==> (#[trigger] s[i]).p == p && s[i].value < p
}


/// `prod_{k < j, k != i} (x - k)` reduced modulo `p`: the Lagrange basis
/// numerator for node `i` at `x`; at `x == i` it is the basis denominator.
pub open spec fn basis_prod(i: int, j: nat, x: int, p: int) -> int
    decreases j,
{
    if j == 0 {
        1int % p
    } else if j - 1 == i {
        basis_prod(i, (j - 1) as nat, x, p)
    } else {
        (basis_prod(i, (j - 1) as nat, x, p) * ((x - (j - 1)) % p)) % p
    }
}

/// Interpolation over the nodes `0..n` can divide by every basis denominator
/// that a nonzero value needs.
pub open spec fn interpolable(ys: Seq<int>, p: int) -> bool {
    forall|i: int|
        0 <= i < ys.len() && ys[i] != 0 ==> has_inverse(
            #[trigger] basis_prod(i, ys.len() as nat, i, p),
            p,
        )
}

impl Polynomial {
    /// Every coefficient is a residue modulo the positive modulus `p`.
    pub open spec fn over(self, p: int) -> bool {
        elems_over(self.coefficients@, p)
    }

    /// The modulus of the first coefficient (one when there is none).
    pub open spec fn modulus(self) -> int {
        if self.coefficients.len() > 0 {
            self.coefficients[0].p as int
        } else {
            1
        }
    }

    /// The modulus shared by two operands: that of the first non-empty one.
    pub open spec fn shared_modulus(self, other: Polynomial) -> int {
        if self.coefficients.len() > 0 {
            self.modulus()
        } else {
            other.modulus()
        }
    }

    /// Both operands lie over one common modulus.
    pub open spec fn same_field(self, other: Polynomial) -> bool {
        self.over(self.shared_modulus(other)) && other.over(self.shared_modulus(other))
    }

    /// The degree: length minus one, and zero for an empty sequence.
    pub open spec fn spec_degree(self) -> nat {
        if self.coefficients.len() == 0 {
            0
        } else {
            (self.coefficients.len() - 1) as nat
        }
    }

    /// Every coefficient is zero (an empty sequence included).
    pub open spec fn is_zero(self) -> bool {
        forall|i: int| 0 <= i < self@.len() ==> #[trigger] self@[i] == 0
    }

    /// Builds a polynomial, dropping trailing zero coefficients (an all-zero
    /// list keeps one zero; an empty list stays empty).
    pub fn new(coefficients: Vec<FieldElement>) -> (r: Polynomial)
        ensures
            r.coefficients.len() <= coefficients.len(),
            coefficients.len() > 0 ==> r.coefficients.len() > 0,
            r.coefficients@ == coefficients@.subrange(0, r.coefficients.len() as int),
            r@ == trim_vals(vals(coefficients@)),
            is_trimmed(r@),
    {
        let mut coefficients = coefficients;
        let ghost orig = coefficients@;
        while coefficients.len() > 1 && coefficients[coefficients.len() - 1].value == 0
            invariant
                coefficients.len() <= orig.len(),
                orig.len() > 0 ==> coefficients.len() > 0,
                coefficients@ == orig.subrange(0, coefficients.len() as int),
                trim_vals(vals(coefficients@)) == trim_vals(vals(orig)),
            decreases coefficients.len(),
        {
            let ghost before = coefficients@;
            coefficients.pop();
            proof {
                assert(vals(before).drop_last() =~= vals(coefficients@));
            }
        }
        proof {
            assert(coefficients@.subrange(0, coefficients.len() as int) =~= coefficients@);
        }
        Polynomial { coefficients }
    }

    /// Length minus one; zero for an empty coefficient list.
    pub fn degree(&self) -> (r: usize)
        ensures
            r == self.spec_degree(),
    {
        if self.coefficients.len() == 0 {
            return 0;
        }
        self.coefficients.len() - 1
    }

    /// The canonical form of this polynomial.
    pub fn trim(&self) -> (r: Polynomial)
        ensures
            r@ == trim_vals(self@),
            is_trimmed(r@),
            r.coefficients.len() <= self.coefficients.len(),
            r.coefficients@ == self.coefficients@.subrange(0, r.coefficients.len() as int),
    {
        Polynomial::new(copy_elements(&self.coefficients))
    }

    /// Horner evaluation at `x`.
    pub fn evaluate(&self, x: &FieldElement) -> (r: FieldElement)
        requires
            x.wf(),
            self.over(x.p as int),
        ensures
            r.wf(),
            r.p == x.p,
            r.value == eval(self@, x.value as int, x.p as int),
    {
        let n = self.coefficients.len();
        let mut result = FieldElement::new(0, x.p);
        let mut i: usize = n;
        proof {
            assert(self@.subrange(n as int, n as int) =~= Seq::<int>::empty());
        }
        while i > 0
            invariant
                i <= n,
                n == self.coefficients.len(),
                self.over(x.p as int),
                x.wf(),
                result.wf(),
                result.p == x.p,
                result.value == eval(self@.subrange(i as int, n as int), x.value as int, x.p as int),
            decreases i,
        {
            let ghost tail = self@.subrange(i as int, n as int);
            i = i - 1;
            let prod = result.mul(x).unwrap();
            result = prod.add(&self.coefficients[i]).unwrap();
            proof {
                let s = self@.subrange(i as int, n as int);
                assert(s.drop_first() =~= tail);
                let m = x.p as int;
                lemma_mul_is_commutative(eval(tail, x.value as int, m), x.value as int);
                lemma_add_mod_noop_right(self@[i as int], x.value * eval(tail, x.value as int, m), m);
            }
        }
        proof {
            assert(self@.subrange(0, n as int) =~= self@);
        }
        result
    }

    /// Every coefficient multiplied by `factor`, in canonical form.
    pub fn scale(&self, factor: FieldElement) -> (r: Polynomial)
        requires
            factor.wf(),
            self.over(factor.p as int),
        ensures
            r.over(factor.p as int),
            r@ == trim_vals(seq_scale(self@, factor.value as int, factor.p as int)),
            is_trimmed(r@),
    {
        let n = self.coefficients.len();
        let mut out: Vec<FieldElement> = Vec::new();
        let mut i: usize = 0;
        while i < n
            invariant
                i <= n,
                n == self.coefficients.len(),
                self.over(factor.p as int),
                factor.wf(),
                out.len() == i,
                forall|j: int|
                    0 <= j < i ==> (#[trigger] out@[j]).p == factor.p && out@[j].wf() && out@[j].value == (
                    self@[j] * factor.value) % (factor.p as int),
            decreases n - i,
        {
            let c = self.coefficients[i].mul(&factor).unwrap();
            out.push(c);
            i = i + 1;
        }
        proof {
            assert(vals(out@) =~= seq_scale(self@, factor.value as int, factor.p as int));
        }
        let r = Polynomial::new(out);
        proof {
            assert forall|j: int| 0 <= j < r.coefficients.len() implies (#[trigger] r.coefficients[j]).p
                == factor.p && r.coefficients[j].value < factor.p by {
                assert(r.coefficients[j] == out@[j]);
            }
        }
        r
    }

    /// Coefficientwise sum, in canonical form.
    pub fn add(&self, other: &Polynomial) -> (r: Polynomial)
        requires
            self.same_field(*other),
        ensures
            r.over(self.shared_modulus(*other)),
            r@ == trim_vals(seq_add(self@, other@, self.shared_modulus(*other))),
            is_trimmed(r@),
    {
        if self.coefficients.len() == 0 && other.coefficients.len() == 0 {
            proof {
                assert(seq_add(self@, other@, self.shared_modulus(*other)) =~= Seq::<int>::empty());
            }
            return Polynomial { coefficients: Vec::new() };
        }
        let p = if self.coefficients.len() > 0 {
            self.coefficients[0].p
        } else {
            other.coefficients[0].p
        };
        let out = combine_coeffs(&self.coefficients, &other.coefficients, p, false);
        canonical(out, Ghost(p as int))
    }

    /// Coefficientwise difference, in canonical form.
    pub fn sub(&self, other: &Polynomial) -> (r: Polynomial)
        requires
            self.same_field(*other),
        ensures
            r.over(self.shared_modulus(*other)),
            r@ == trim_vals(seq_sub(self@, other@, self.shared_modulus(*other))),
            is_trimmed(r@),
    {
        if self.coefficients.len() == 0 && other.coefficients.len() == 0 {
            proof {
                assert(seq_sub(self@, other@, self.shared_modulus(*other)) =~= Seq::<int>::empty());
            }
            return Polynomial { coefficients: Vec::new() };
        }
        let p = if self.coefficients.len() > 0 {
            self.coefficients[0].p
        } else {
            other.coefficients[0].p
        };
        let out = combine_coeffs(&self.coefficients, &other.coefficients, p, true);
        canonical(out, Ghost(p as int))
    }

    /// The product: coefficient `k` is the sum of `self[i] * other[j]` over
    /// `i + j == k`; in canonical form.
    pub fn mul(&self, other: &Polynomial) -> (r: Polynomial)
        requires
            self.same_field(*other),
        ensures
            r.over(self.shared_modulus(*other)),
            r@ == trim_vals(seq_mul(self@, other@, self.shared_modulus(*other))),
            is_trimmed(r@),
    {
        let n = self.coefficients.len();
        if n == 0 || other.coefficients.len() == 0 {
            proof {
                assert(seq_mul(self@, other@, self.shared_modulus(*other)) =~= Seq::<int>::empty());
            }
            return Polynomial { coefficients: Vec::new() };
        }
        let p = self.coefficients[0].p;
        let ghost m = p as int;
        let mut acc = scale_coeffs(&other.coefficients, &self.coefficients[n - 1]);
        let mut i: usize = n - 1;
        proof {
            assert(self@.subrange(i as int, n as int).len() == 1);
        }
        while i > 0
            invariant
                i < n,
                n == self.coefficients.len(),
                elems_over(self.coefficients@, m),
                elems_over(other.coefficients@, m),
                p == m,
                other.coefficients.len() > 0,
                elems_over(acc@, m),
                vals(acc@) == seq_mul(self@.subrange(i as int, n as int), other@, m),
            decreases i,
        {
            let ghost prev = self@.subrange(i as int, n as int);
            i = i - 1;
            let scaled = scale_coeffs(&other.coefficients, &self.coefficients[i]);
            let shifted = shift_coeffs(&acc, p);
            acc = combine_coeffs(&scaled, &shifted, p, false);
            proof {
                let cur = self@.subrange(i as int, n as int);
                assert(cur.drop_first() =~= prev);
                assert(cur[0] == self@[i as int]);
            }
        }
        proof {
            assert(self@.subrange(0, n as int) =~= self@);
        }
        canonical(acc, Ghost(m))
    }

    /// Long division by a nonzero divisor: `(quotient, remainder)` with
    /// `self == quotient * divisor + remainder` and the remainder zero or of
    /// lower degree than the divisor. Fails on a zero divisor, and when the
    /// divisor's leading coefficient has no inverse (only under a composite modulus).
    pub fn div_rem(&self, divisor: &Polynomial) -> (r: Result<(Polynomial, Polynomial), ArithError>)
        requires
            self.same_field(*divisor),
        ensures
            divisor.is_zero() ==> r == Err::<(Polynomial, Polynomial), ArithError>(
                ArithError::ZeroDivisor,
            ),
            !divisor.is_zero() && !has_inverse(
                trim_vals(divisor@).last(),
                self.shared_modulus(*divisor),
            ) ==> r == Err::<(Polynomial, Polynomial), ArithError>(ArithError::NoInverse),
            !divisor.is_zero() && has_inverse(
                trim_vals(divisor@).last(),
                self.shared_modulus(*divisor),
            ) ==> r is Ok,
            r matches Ok((q, rem)) ==> {
                let m = self.shared_modulus(*divisor);
                &&& q.over(m)
                &&& rem.over(m)
                &&& is_trimmed(q@)
                &&& is_trimmed(rem@)
                &&& rem.is_zero() || rem@.len() < trim_vals(divisor@).len()
                &&& is_division(self@, trim_vals(divisor@), q@, rem@, m)
                &&& forall|x: int|
                    #![trigger eval(self@, x, m)]
                    eval(self@, x, m) == (eval(q@, x, m) * eval(divisor@, x, m) + eval(
                        rem@,
                        x,
                        m,
                    )) % m
            },
    {
        let ghost m = self.shared_modulus(*divisor);
        let d = divisor.trim();
        let dl = d.coefficients.len();
        proof {
            lemma_trim_zero(divisor@);
            lemma_trim_len(divisor@);
        }
        if dl == 0 || (dl == 1 && d.coefficients[0].value == 0) {
            return Err(ArithError::ZeroDivisor);
        }
        let p = d.coefficients[0].p;
        assert(p == m);
        let lead = d.coefficients[dl - 1];
        let lead_inv = match lead.inverse() {
            Ok(v) => v,
            Err(e) => {
                return Err(e);
            },
        };
        let rem0 = self.trim();
        proof {
            lemma_trim_len(self@);
            assert forall|x: int| #[trigger] eval(self@, x, m) == eval(rem0@, x, m) by {
                lemma_eval_trim(self@, x, m);
            }
            assert forall|x: int| #[trigger] eval(divisor@, x, m) == eval(d@, x, m) by {
                lemma_eval_trim(divisor@, x, m);
            }
            assert forall|j: int| 0 <= j < rem0.coefficients.len() implies (
            #[trigger] rem0.coefficients[j]).p == m && rem0.coefficients[j].value < m by {
                assert(rem0.coefficients[j] == self.coefficients[j]);
            }
            assert forall|j: int| 0 <= j < d.coefficients.len() implies (
            #[trigger] d.coefficients[j]).p == m && d.coefficients[j].value < m by {
                assert(d.coefficients[j] == divisor.coefficients[j]);
            }
        }
        let zero = FieldElement::new(0, p);
        if rem0.coefficients.len() < dl {
            let mut zq: Vec<FieldElement> = Vec::new();
            zq.push(zero);
            let quotient = Polynomial::new(zq);
            proof {
                assert(quotient@ =~= seq![0int]);
                assert forall|x: int| #![trigger eval(self@, x, m)] eval(self@, x, m) == (eval(quotient@, x, m) * eval(
                    divisor@,
                    x,
                    m,
                ) + eval(rem0@, x, m)) % m by {
                    assert(quotient@.drop_first().len() == 0);
                    assert(quotient@[0] == 0);
                    assert(eval(quotient@.drop_first(), x, m) == 0);
                    assert(x * 0 == 0) by (nonlinear_arith);
                    lemma_small_mod(0, m as nat);
                    assert(eval(quotient@, x, m) == 0);
                    assert(0 * eval(divisor@, x, m) == 0) by (nonlinear_arith);
                    lemma_eval_bound(rem0@, x, m);
                    lemma_small_mod(eval(rem0@, x, m) as nat, m as nat);
                }
            }
            assert(rem0.over(m));
            assert(quotient.over(m));
            assert forall|i: int| i >= 0 implies #[trigger] coef(self@, i) == coef(
                seq_add(seq_mul(quotient@, d@, m), rem0@, m),
                i,
            ) by {
                lemma_coef_trim(self@, i);
                lemma_coef_mul_zero(quotient@, d@, m, i);
                lemma_coef_add(seq_mul(quotient@, d@, m), rem0@, m, i);
                if i < rem0@.len() {
                    lemma_small_mod(rem0@[i] as nat, m as nat);
                } else {
                    lemma_small_mod(0, m as nat);
                }
            }
            assert(rem0@.len() < trim_vals(divisor@).len());
            return Ok((quotient, rem0));
        }
        let qlen = rem0.coefficients.len() - dl + 1;
        let mut q: Vec<FieldElement> = Vec::new();
        while q.len() < qlen
            invariant
                q.len() <= qlen,
                zero.wf(),
                zero.p == p,
                zero.value == 0,
                forall|j: int| 0 <= j < q.len() ==> #[trigger] q@[j] == zero,
            decreases qlen - q.len(),
        {
            q.push(zero);
        }
        proof {
            assert forall|x: int| #![trigger eval(self@, x, m)] eval(self@, x, m) == (eval(vals(q@), x, m) * eval(d@, x, m)
                + eval(rem0@, x, m)) % m by {
                lemma_eval_all_zero(vals(q@), x, m);
                assert(0 * eval(d@, x, m) == 0) by (nonlinear_arith);
                lemma_eval_bound(rem0@, x, m);
                lemma_small_mod(eval(rem0@, x, m) as nat, m as nat);
            }
        }
        proof {
            assert forall|i: int| i >= 0 implies #[trigger] coef(rem0@, i) == (coef(
                seq_mul(vals(q@), d@, m),
                i,
            ) + coef(rem0@, i)) % m by {
                lemma_coef_mul_zero(vals(q@), d@, m, i);
                if i < rem0@.len() {
                    lemma_small_mod(rem0@[i] as nat, m as nat);
                } else {
                    lemma_small_mod(0, m as nat);
                }
            }
        }
        let mut rem = rem0;
        while rem.coefficients.len() >= dl && !(rem.coefficients.len() == 1
            && rem.coefficients[0].value == 0)
            invariant
                p == m,
                m > 0,
                dl == d.coefficients.len(),
                d@ == trim_vals(divisor@),
                forall|x: int| #[trigger] eval(divisor@, x, m) == eval(d@, x, m),
                dl >= 1,
                elems_over(d.coefficients@, m),
                d@.last() != 0,
                lead == d.coefficients[dl - 1],
                lead_inv.wf(),
                lead_inv.p == p,
                (lead.value * lead_inv.value) % m == 1int % m,
                q.len() == qlen,
                qlen + dl == rem0.coefficients.len() + 1,
                elems_over(q@, m),
                elems_over(rem.coefficients@, m),
                rem.coefficients.len() <= rem0.coefficients.len(),
                rem.coefficients.len() >= 1,
                is_trimmed(rem@),
                !(rem.coefficients.len() == 1 && rem@[0] == 0) ==> forall|j: int|
                    0 <= j < qlen && j + dl <= rem.coefficients.len() ==> #[trigger] q@[j].value
                        == 0,
                forall|x: int|
                    #![trigger eval(self@, x, m)]
                    eval(self@, x, m) == (eval(vals(q@), x, m) * eval(d@, x, m) + eval(
                        rem@,
                        x,
                        m,
                    )) % m,
                forall|i: int|
                    i >= 0 ==> #[trigger] coef(rem0@, i) == (coef(seq_mul(vals(q@), d@, m), i)
                        + coef(rem@, i)) % m,
            decreases 2 * rem.coefficients.len() - (if rem.coefficients.len() == 1 && rem@[0] == 0 {
                1int
            } else {
                0int
            }),
        {
            let rl = rem.coefficients.len();
            let k = rl - dl;
            let top = rem.coefficients[rl - 1];
            let f = top.mul(&lead_inv).unwrap();
            let ghost q_before = vals(q@);
            q.set(k, f);
            let scaled = scale_coeffs(&d.coefficients, &f);
            let sub = prepend_zeros(&scaled, k, p);
            let diff = combine_coeffs(&rem.coefficients, &sub, p, true);
            let ghost rem_before = rem@;
            rem = canonical(diff, Ghost(m));
            proof {
                assert(vals(q@) =~= q_before.update(k as int, f.value as int));
                let ds = seq_sub(rem_before, vals(sub@), m);
                assert forall|x: int| #![trigger eval(self@, x, m)] eval(self@, x, m) == (eval(vals(q@), x, m) * eval(d@, x, m)
                    + eval(rem@, x, m)) % m by {
                    let xk = pow(x, k as nat);
                    lemma_eval_update_zero(q_before, k as int, f.value as int, x, m);
                    lemma_eval_shift_k(vals(scaled@), k as nat, x, m);
                    lemma_eval_seq_scale(d@, f.value as int, x, m);
                    lemma_eval_seq_sub(rem_before, vals(sub@), x, m);
                    lemma_eval_trim(ds, x, m);
                    lemma_division_step(
                        eval(self@, x, m),
                        eval(q_before, x, m),
                        eval(d@, x, m),
                        eval(rem_before, x, m),
                        f.value as int,
                        xk,
                        m,
                    );
                }
                assert forall|i: int| i >= 0 implies #[trigger] coef(rem0@, i) == (coef(
                    seq_mul(vals(q@), d@, m),
                    i,
                ) + coef(rem@, i)) % m by {
                    let sc = zeros(k as nat).add(seq_scale(d@, f.value as int, m));
                    assert(vals(sub@) == sc);
                    lemma_coef_mul_update_zero(q_before, d@, k as int, f.value as int, m, i);
                    lemma_coef_trim(ds, i);
                    lemma_coef_sub(rem_before, vals(sub@), m, i);
                    let mm = coef(seq_mul(q_before, d@, m), i);
                    let rr = coef(rem_before, i);
                    let ss = coef(sc, i);
                    lemma_add_mod_noop(mm + ss, rr - ss, m);
                }
                // the leading coefficient cancels
                let lv = lead.value as int;
                let tv = top.value as int;
                let iv = lead_inv.value as int;
                assert(ds.len() == rl);
                assert(vals(sub@)[rl - 1] == vals(scaled@)[dl - 1]);
                lemma_mul_mod_noop_right(lv, tv * iv, m);
                lemma_mul_is_associative(lv, tv, iv);
                lemma_mul_is_commutative(lv, tv);
                lemma_mul_is_associative(tv, lv, iv);
                lemma_mul_mod_noop_right(tv, lv * iv, m);
                lemma_mul_mod_noop_right(tv, 1, m);
                lemma_small_mod(tv as nat, m as nat);
                assert((lv * f.value) % m == tv);
                assert(d@[dl - 1] == lv);
                assert(vals(scaled@)[dl - 1] == (lv * f.value) % m);
                assert(rem_before[rl - 1] == tv);
                assert(coef(vals(sub@), rl - 1) == tv);
                assert(coef(rem_before, rl - 1) == tv);
                lemma_small_mod(0, m as nat);
                assert(ds[rl - 1] == 0);
                lemma_trim_len(ds);
                if rl == 1 {
                    assert(ds =~= seq![0int]);
                }
            }
        }
        let quotient = canonical(q, Ghost(m));
        proof {
            assert forall|x: int| #![trigger eval(self@, x, m)] eval(self@, x, m) == (eval(quotient@, x, m) * eval(
                divisor@,
                x,
                m,
            ) + eval(rem@, x, m)) % m by {
                lemma_eval_trim(vals(q@), x, m);
            }
            assert forall|i: int| i >= 0 implies #[trigger] coef(self@, i) == coef(
                seq_add(seq_mul(quotient@, d@, m), rem@, m),
                i,
            ) by {
                lemma_coef_trim(self@, i);
                lemma_coef_mul_trim(vals(q@), d@, m, i);
                lemma_coef_add(seq_mul(quotient@, d@, m), rem@, m, i);
            }
            if rem.coefficients.len() == 1 && rem@[0] == 0 {
                assert(rem.is_zero());
            }
            assert(quotient.over(m));
            assert(rem.over(m));
            assert(is_trimmed(rem@));
            assert(rem.is_zero() || rem@.len() < trim_vals(divisor@).len());
        }
        Ok((quotient, rem))
    }

    /// The quotient of long division (see `div_rem`).
    pub fn div(&self, divisor: &Polynomial) -> (r: Result<Polynomial, ArithError>)
        requires
            self.same_field(*divisor),
        ensures
            divisor.is_zero() ==> r == Err::<Polynomial, ArithError>(ArithError::ZeroDivisor),
            !divisor.is_zero() && !has_inverse(
                trim_vals(divisor@).last(),
                self.shared_modulus(*divisor),
            ) ==> r == Err::<Polynomial, ArithError>(ArithError::NoInverse),
            !divisor.is_zero() && has_inverse(
                trim_vals(divisor@).last(),
                self.shared_modulus(*divisor),
            ) ==> r is Ok,
            r matches Ok(q) ==> q.over(self.shared_modulus(*divisor)) && is_trimmed(q@) && exists|
                rem: Polynomial,
            |
                #[trigger] rem.over(self.shared_modulus(*divisor)) && (rem.is_zero() || rem@.len()
                    < trim_vals(divisor@).len()) && is_division(
                    self@,
                    trim_vals(divisor@),
                    q@,
                    rem@,
                    self.shared_modulus(*divisor),
                ) && forall|x: int|
                    #![trigger eval(self@, x, self.shared_modulus(*divisor))]
                    eval(self@, x, self.shared_modulus(*divisor)) == (eval(
                        q@,
                        x,
                        self.shared_modulus(*divisor),
                    ) * eval(divisor@, x, self.shared_modulus(*divisor)) + eval(
                        rem@,
                        x,
                        self.shared_modulus(*divisor),
                    )) % self.shared_modulus(*divisor),
    {
        match self.div_rem(divisor) {
            Ok((q, rem)) => Ok(q),
            Err(e) => Err(e),
        }
    }

    /// The polynomial of degree below `n = y_values.len()` that takes the value
    /// `y_values[i]` at `x = i` for every `i < n`, built from the Lagrange basis.
    /// Nodes with a zero value are skipped. Fails when a needed basis
    /// denominator has no inverse (the modulus is composite or not above the
    /// largest node).
    pub fn lagrange_interpolation(y_values: &Vec<FieldElement>) -> (r: Result<
        Polynomial,
        ArithError,
    >)
        requires
            y_values.len() > 0 ==> elems_over(y_values@, y_values@[0].p as int),
        ensures
            y_values.len() == 0 ==> r is Ok && r->Ok_0.coefficients.len() == 0,
            y_values.len() > 0 ==> (r is Ok <==> interpolable(
                vals(y_values@),
                y_values@[0].p as int,
            )),
            r is Err ==> r == Err::<Polynomial, ArithError>(ArithError::NoInverse),
            r matches Ok(l) ==> y_values.len() > 0 ==> {
                let p = y_values@[0].p as int;
                &&& l.over(p)
                &&& is_trimmed(l@)
                &&& l.coefficients.len() <= y_values.len()
                &&& forall|t: int|
                    0 <= t < y_values.len() ==> #[trigger] eval(l@, t, p) == y_values@[t].value
            },
    {
        let n = y_values.len();
        if n == 0 {
            return Ok(Polynomial { coefficients: Vec::new() });
        }
        let p = y_values[0].p;
        let ghost m = p as int;
        let ghost ys = vals(y_values@);
        let mut zv: Vec<FieldElement> = Vec::new();
        zv.push(FieldElement::new(0, p));
        let mut total = canonical(zv, Ghost(m));
        proof {
            assert(total@ =~= seq![0int]);
            assert forall|t: int| 0 <= t < n implies #[trigger] eval(total@, t, m) == 0 by {
                assert(total@.drop_first().len() == 0);
                assert(eval(total@.drop_first(), t, m) == 0);
                assert(t * 0 == 0) by (nonlinear_arith);
                lemma_small_mod(0, m as nat);
            }
        }
        let mut i: usize = 0;
        while i < n
            invariant
                i <= n,
                n == y_values.len(),
                p == m,
                m > 0,
                ys == vals(y_values@),
                elems_over(y_values@, m),
                total.over(m),
                total.coefficients.len() >= 1,
                total.coefficients.len() <= n,
                is_trimmed(total@),
                forall|t: int|
                    0 <= t < n ==> #[trigger] eval(total@, t, m) == (if t < i {
                        ys[t]
                    } else {
                        0
                    }),
                forall|k: int|
                    0 <= k < i && ys[k] != 0 ==> has_inverse(
                        #[trigger] basis_prod(k, n as nat, k, m),
                        m,
                    ),
            decreases n - i,
        {
            let yi = y_values[i];
            if yi.value != 0 {
                let (num, den) = basis_numerator(i, n, p);
                let den_inv = match den.inverse() {
                    Ok(v) => v,
                    Err(e) => {
                        proof {
                            assert(ys.len() == n);
                            assert(ys[i as int] == yi.value);
                            assert(!has_inverse(basis_prod(i as int, ys.len() as nat, i as int, m), m));
                            assert(!interpolable(ys, m));
                        }
                        return Err(e);
                    },
                };
                let basis = num.scale(den_inv);
                let weighted = basis.scale(yi);
                let ghost prev = total@;
                proof {
                    lemma_trim_len(seq_scale(num@, den_inv.value as int, m));
                    lemma_trim_len(seq_scale(basis@, yi.value as int, m));
                    assert(basis.modulus() == m);
                }
                total = total.add(&weighted);
                proof {
                    lemma_trim_len(seq_add(prev, weighted@, m));
                    assert(weighted.coefficients.len() <= n);
                    assert(seq_add(prev, weighted@, m).len() <= n);
                    assert(total.coefficients.len() <= n);
                    assert(total.coefficients.len() >= 1);
                    assert forall|t: int| 0 <= t < n implies #[trigger] eval(total@, t, m) == (if t
                        < i + 1 {
                        ys[t]
                    } else {
                        0
                    }) by {
                        lemma_evaluate_add(prev, weighted@, t, m);
                        lemma_eval_trim(seq_scale(basis@, yi.value as int, m), t, m);
                        lemma_eval_seq_scale(basis@, yi.value as int, t, m);
                        lemma_eval_trim(seq_scale(num@, den_inv.value as int, m), t, m);
                        lemma_eval_seq_scale(num@, den_inv.value as int, t, m);
                        let nv = eval(num@, t, m);
                        let iv = den_inv.value as int;
                        let yv = yi.value as int;
                        lemma_eval_bound(prev, t, m);
                        if t == i {
                            // inv * den == 1, and y * 1 == y
                            lemma_mul_is_commutative(iv, nv);
                            lemma_mul_mod_noop_right(yv, iv * nv, m);
                            lemma_mul_mod_noop_right(yv, 1, m);
                            lemma_small_mod(yv as nat, m as nat);
                            lemma_small_mod(0, m as nat);
                        } else {
                            lemma_basis_prod_vanishes(i as int, n as nat, t, m);
                            assert(iv * 0 == 0) by (nonlinear_arith);
                            lemma_small_mod(0, m as nat);
                            assert(yv * 0 == 0) by (nonlinear_arith);
                            lemma_small_mod(eval(prev, t, m) as nat, m as nat);
                        }
                    }
                }
            } else {
                proof {
                    assert forall|t: int| 0 <= t < n implies #[trigger] eval(total@, t, m) == (if t
                        < i + 1 {
                        ys[t]
                    } else {
                        0
                    }) by {}
                }
            }
            i = i + 1;
        }
        Ok(total)
    }
}


/// The basis numerator `prod_{k < n, k != i} (x - k)` for node `i` and the
/// denominator `prod_{k < n, k != i} (i - k)`, modulo `p`.
pub(crate) fn basis_numerator(i: usize, n: usize, p: u64) -> (r: (Polynomial, FieldElement))
    requires
        p > 0,
    ensures
        r.0.over(p as int),
        r.0.coefficients.len() >= 1,
        i < n ==> r.0.coefficients.len() <= n,
        p > 1 ==> r.0.coefficients.len() == n + 1 - (if i < n {
            1int
        } else {
            0int
        }) && r.0@.last() == 1,
        is_trimmed(r.0@),
        forall|x: int| #[trigger] eval(r.0@, x, p as int) == basis_prod(i as int, n as nat, x, p as int),
        r.1.wf(),
        r.1.p == p,
        r.1.value == basis_prod(i as int, n as nat, i as int, p as int),
{
    let ghost m = p as int;
    let mut one_v: Vec<FieldElement> = Vec::new();
    one_v.push(FieldElement::new(1, p));
    let mut num = canonical(one_v, Ghost(m));
    let mut den = FieldElement::new(1, p);
    let xi = FieldElement::new(i as i128, p);
    proof {
        if m > 1 {
            lemma_small_mod(1, m as nat);
            assert(vals(one_v@) =~= seq![1int]);
        }
        assert forall|x: int| #[trigger] eval(num@, x, m) == basis_prod(i as int, 0, x, m) by {
            assert(num@.len() == 1);
            assert(num@.drop_first().len() == 0);
            assert(eval(num@.drop_first(), x, m) == 0);
            assert(x * 0 == 0) by (nonlinear_arith);
            lemma_mod_twice(1, m);
        }
    }
    let mut j: usize = 0;
    while j < n
        invariant
            j <= n,
            m == p as int,
            m > 0,
            xi.wf(),
            xi.p == p,
            xi.value == (i as int) % m,
            num.over(m),
            num.coefficients.len() >= 1,
            num.coefficients.len() <= 1 + j - (if (i as int) < (j as int) {
                1int
            } else {
                0int
            }),
            m > 1 ==> num.coefficients.len() == 1 + j - (if (i as int) < (j as int) {
                1int
            } else {
                0int
            }) && num@.last() == 1,
            is_trimmed(num@),
            forall|x: int| #[trigger] eval(num@, x, m) == basis_prod(i as int, j as nat, x, m),
            den.wf(),
            den.p == p,
            den.value == basis_prod(i as int, j as nat, i as int, m),
        decreases n - j,
    {
        if j != i {
            let zero = FieldElement::new(0, p);
            let xj = FieldElement::new(j as i128, p);
            let neg_xj = zero.sub(&xj).unwrap();
            let one = FieldElement::new(1, p);
            let mut tv: Vec<FieldElement> = Vec::new();
            tv.push(neg_xj);
            tv.push(one);
            let term = Polynomial { coefficients: tv };
            let ghost prev = num@;
            proof {
                assert(num.modulus() == m);
                lemma_seq_mul_shape(prev, term@, m);
                lemma_trim_len(seq_mul(prev, term@, m));
                if m > 1 {
                    lemma_small_mod(1, m as nat);
                    assert(term@.last() == 1);
                    assert(seq_mul(prev, term@, m).last() == 1);
                    assert(trim_vals(seq_mul(prev, term@, m)) == seq_mul(prev, term@, m));
                }
            }
            num = num.mul(&term);
            let d = xi.sub(&xj).unwrap();
            let ghost old_den = den.value as int;
            den = den.mul(&d).unwrap();
            proof {
                lemma_sub_mod_noop(i as int, j as int, m);
                lemma_small_mod(0, m as nat);
                assert forall|x: int| #[trigger] eval(num@, x, m) == basis_prod(
                    i as int,
                    (j + 1) as nat,
                    x,
                    m,
                ) by {
                    lemma_evaluate_mul(prev, term@, x, m);
                    assert(term@.len() == 2);
                    assert(term@[0] == neg_xj.value);
                    assert(term@[1] == one.value);
                    assert(term@.drop_first()[0] == one.value);
                    assert(term@.drop_first().drop_first().len() == 0);
                    assert(eval(term@.drop_first().drop_first(), x, m) == 0);
                    assert(x * 0 == 0) by (nonlinear_arith);
                    lemma_mod_affine(-(j as int), x, 1, m);
                    lemma_sub_mod_noop(0, j as int, m);
                    lemma_mod_twice(1, m);
                    assert(eval(term@.drop_first(), x, m) == (one.value + x * 0) % m);
                    assert(eval(term@.drop_first(), x, m) == 1int % m);
                    assert(neg_xj.value == (-(j as int)) % m);
                    assert(eval(term@, x, m) == (neg_xj.value + x * (1int % m)) % m);
                    assert(x * 1 == x);
                    assert(eval(term@, x, m) == (x - j) % m);
                }
            }
        }
        j = j + 1;
    }
    (num, den)
}

/// The basis numerator of node `i` vanishes at every other node below `j`.
pub(crate) proof fn lemma_basis_prod_vanishes(i: int, j: nat, t: int, p: int)
    requires
        p > 0,
        0 <= t < j,
        t != i,
    ensures
        basis_prod(i, j, t, p) == 0,
    decreases j,
{
    if j - 1 == t {
        lemma_small_mod(0, p as nat);
        assert(basis_prod(i, (j - 1) as nat, t, p) * 0 == 0) by (nonlinear_arith);
    } else {
        lemma_basis_prod_vanishes(i, (j - 1) as nat, t, p);
        if j - 1 != i {
            assert(0 * ((t - (j - 1)) % p) == 0) by (nonlinear_arith);
            lemma_small_mod(0, p as nat);
        }
    }
}

/// The canonical polynomial of a coefficient list over `p`.
fn canonical(v: Vec<FieldElement>, Ghost(p): Ghost<int>) -> (r: Polynomial)
    requires
        elems_over(v@, p),
    ensures
        r.over(p),
        is_trimmed(r@),
        r@ == trim_vals(vals(v@)),
{
    let r = Polynomial::new(v);
    proof {
        assert forall|j: int| 0 <= j < r.coefficients.len() implies (#[trigger] r.coefficients[j]).p
            == p && r.coefficients[j].value < p by {
            assert(r.coefficients[j] == v@[j]);
        }
    }
    r
}

/// The element at `i`, or zero modulo `p` past the end.
fn coef_or_zero(v: &Vec<FieldElement>, i: usize, p: u64) -> (r: FieldElement)
    requires
        elems_over(v@, p as int),
    ensures
        r.wf(),
        r.p == p,
        r.value == coef(vals(v@), i as int),
{
    if i < v.len() {
        v[i]
    } else {
        FieldElement::new(0, p)
    }
}

/// Coefficientwise sum (or difference) modulo `p`, over the longer length.
fn combine_coeffs(a: &Vec<FieldElement>, b: &Vec<FieldElement>, p: u64, subtract: bool) -> (r: Vec<
    FieldElement,
>)
    requires
        elems_over(a@, p as int),
        elems_over(b@, p as int),
    ensures
        elems_over(r@, p as int),
        !subtract ==> vals(r@) == seq_add(vals(a@), vals(b@), p as int),
        subtract ==> vals(r@) == seq_sub(vals(a@), vals(b@), p as int),
{
    let n = if a.len() >= b.len() {
        a.len()
    } else {
        b.len()
    };
    let mut out: Vec<FieldElement> = Vec::new();
    let mut i: usize = 0;
    while i < n
        invariant
            i <= n,
            n == (if a.len() >= b.len() {
                a.len()
            } else {
                b.len()
            }),
            elems_over(a@, p as int),
            elems_over(b@, p as int),
            elems_over(out@, p as int),
            out.len() == i,
            forall|j: int|
                0 <= j < i ==> (#[trigger] out@[j]).value == (if subtract {
                    (coef(vals(a@), j) - coef(vals(b@), j)) % (p as int)
                } else {
                    (coef(vals(a@), j) + coef(vals(b@), j)) % (p as int)
                }),
        decreases n - i,
    {
        let x = coef_or_zero(a, i, p);
        let y = coef_or_zero(b, i, p);
        let c = if subtract {
            x.sub(&y).unwrap()
        } else {
            x.add(&y).unwrap()
        };
        out.push(c);
        i = i + 1;
    }
    proof {
        if subtract {
            assert(vals(out@) =~= seq_sub(vals(a@), vals(b@), p as int));
        } else {
            assert(vals(out@) =~= seq_add(vals(a@), vals(b@), p as int));
        }
    }
    out
}

/// Every element multiplied by `k`.
fn scale_coeffs(a: &Vec<FieldElement>, k: &FieldElement) -> (r: Vec<FieldElement>)
    requires
        k.wf(),
        elems_over(a@, k.p as int),
    ensures
        elems_over(r@, k.p as int),
        vals(r@) == seq_scale(vals(a@), k.value as int, k.p as int),
{
    let mut out: Vec<FieldElement> = Vec::new();
    let mut i: usize = 0;
    while i < a.len()
        invariant
            i <= a.len(),
            k.wf(),
            elems_over(a@, k.p as int),
            elems_over(out@, k.p as int),
            out.len() == i,
            forall|j: int|
                0 <= j < i ==> (#[trigger] out@[j]).value == (a@[j].value * k.value) % (
                k.p as int),
        decreases a.len() - i,
    {
        out.push(a[i].mul(k).unwrap());
        i = i + 1;
    }
    proof {
        assert(vals(out@) =~= seq_scale(vals(a@), k.value as int, k.p as int));
    }
    out
}

/// `k` zero coefficients followed by `a`: multiplication by `x^k`.
fn prepend_zeros(a: &Vec<FieldElement>, k: usize, p: u64) -> (r: Vec<FieldElement>)
    requires
        elems_over(a@, p as int),
    ensures
        elems_over(r@, p as int),
        vals(r@) == zeros(k as nat).add(vals(a@)),
{
    let mut out: Vec<FieldElement> = Vec::new();
    let zero = FieldElement::new(0, p);
    while out.len() < k
        invariant
            out.len() <= k,
            zero.wf(),
            zero.p == p,
            zero.value == 0,
            forall|j: int| 0 <= j < out.len() ==> #[trigger] out@[j] == zero,
        decreases k - out.len(),
    {
        out.push(zero);
    }
    let mut i: usize = 0;
    while i < a.len()
        invariant
            i <= a.len(),
            out.len() == k + i,
            elems_over(a@, p as int),
            zero.wf(),
            zero.p == p,
            zero.value == 0,
            forall|j: int| 0 <= j < k ==> #[trigger] out@[j] == zero,
            forall|j: int| 0 <= j < i ==> #[trigger] out@[k + j] == a@[j],
        decreases a.len() - i,
    {
        out.push(a[i]);
        i = i + 1;
    }
    proof {
        assert forall|j: int| k <= j < out.len() implies out@[j] == a@[j - k] by {
            assert(out@[k + (j - k)] == a@[j - k]);
        }
        assert(vals(out@) =~= zeros(k as nat).add(vals(a@)));
    }
    out
}

/// A zero coefficient followed by `a`: multiplication by `x`.
fn shift_coeffs(a: &Vec<FieldElement>, p: u64) -> (r: Vec<FieldElement>)
    requires
        elems_over(a@, p as int),
    ensures
        elems_over(r@, p as int),
        vals(r@) == seq![0int].add(vals(a@)),
{
    let mut out: Vec<FieldElement> = Vec::new();
    out.push(FieldElement::new(0, p));
    let mut i: usize = 0;
    while i < a.len()
        invariant
            i <= a.len(),
            elems_over(a@, p as int),
            elems_over(out@, p as int),
            out.len() == i + 1,
            out@[0].value == 0,
            forall|j: int| 0 <= j < i ==> (#[trigger] out@[j + 1]) == a@[j],
        decreases a.len() - i,
    {
        out.push(a[i]);
        i = i + 1;
    }
    proof {
        assert forall|k: int| 1 <= k < out.len() implies out@[k] == a@[k - 1] by {
            assert(out@[(k - 1) + 1] == a@[k - 1]);
        }
        assert(vals(out@) =~= seq![0int].add(vals(a@)));
    }
    out
}

/// An all-zero sequence evaluates to zero.
pub(crate) proof fn lemma_eval_all_zero(s: Seq<int>, x: int, p: int)
    requires
        p > 0,
        forall|i: int| 0 <= i < s.len() ==> #[trigger] s[i] == 0,
    ensures
        eval(s, x, p) == 0,
    decreases s.len(),
{
    if s.len() > 0 {
        lemma_eval_all_zero(s.drop_first(), x, p);
        assert(x * 0 == 0) by (nonlinear_arith);
        lemma_small_mod(0, p as nat);
    }
}

/// An element-by-element copy of `v`.
fn copy_elements(v: &Vec<FieldElement>) -> (r: Vec<FieldElement>)
    ensures
        r@ == v@,
{
    let mut out: Vec<FieldElement> = Vec::new();
    let mut i: usize = 0;
    while i < v.len()
        invariant
            i <= v.len(),
            out@ == v@.subrange(0, i as int),
        decreases v.len() - i,
    {
        out.push(v[i]);
        i = i + 1;
        proof {
            assert(out@ =~= v@.subrange(0, i as int));
        }
    }
    proof {
        assert(v@.subrange(0, v.len() as int) =~= v@);
    }
    out
}

} // verus!
