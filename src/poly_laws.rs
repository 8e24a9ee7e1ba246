use crate::field_laws::{is_prime, lemma_prime_inverse};
use crate::field::has_inverse;
use crate::polynomial::{
    basis_prod, coef, eval, interpolable, seq_add, seq_mul, seq_scale, seq_sub, trim_vals,
};
use vstd::arithmetic::div_mod::{
    lemma_add_mod_noop, lemma_add_mod_noop_right, lemma_small_mod, lemma_mod_twice, lemma_mul_mod_noop_left, lemma_mul_mod_noop_right,
    lemma_sub_mod_noop,
};
use vstd::arithmetic::div_mod::{
    lemma_fundamental_div_mod, lemma_mod_bound, lemma_mod_multiples_vanish,
};
use vstd::arithmetic::mul::{
    lemma_mul_is_associative, lemma_mul_is_commutative, lemma_mul_is_distributive_add, lemma_mul_is_distributive_sub,
};
use vstd::arithmetic::power::{lemma_pow0, lemma_pow1, lemma_pow_adds, pow};
use vstd::prelude::*;

verus! {

/// `s` without its first coefficient (empty stays empty).
pub open spec fn tail(s: Seq<int>) -> Seq<int> {
    if s.len() > 0 {
        s.drop_first()
    } else {
        s
    }
}

/// Reducing the pieces of `c + x * e` first does not change the residue.
pub proof fn lemma_mod_affine(c: int, x: int, e: int, p: int)
    requires
        p > 0,
    ensures
        ((c % p) + x * (e % p)) % p == (c + x * e) % p,
{
    let t = x * (e % p);
    lemma_add_mod_noop_right(t, c, p);
    lemma_add_mod_noop_right(c, t, p);
    lemma_mul_mod_noop_right(x, e, p);
    lemma_add_mod_noop_right(c, x * e, p);
}

/// Horner's step holds also for the empty sequence.
pub proof fn lemma_eval_unfold(s: Seq<int>, x: int, p: int)
    requires
        p > 0,
    ensures
        eval(s, x, p) == (coef(s, 0) + x * eval(tail(s), x, p)) % p,
{
    if s.len() == 0 {
        assert(x * 0 == 0) by (nonlinear_arith);
        lemma_small_mod(0, p as nat);
    }
}

/// A value of `eval` is a residue.
pub proof fn lemma_eval_bound(s: Seq<int>, x: int, p: int)
    requires
        p > 0,
    ensures
        0 <= eval(s, x, p) < p,
{
    if s.len() > 0 {
        lemma_mod_twice(0, p);
    }
}

/// Evaluation turns the coefficientwise sum into the sum of values.
pub proof fn lemma_eval_seq_add(a: Seq<int>, b: Seq<int>, x: int, p: int)
    requires
        p > 0,
    ensures
        eval(seq_add(a, b, p), x, p) == (eval(a, x, p) + eval(b, x, p)) % p,
    decreases a.len() + b.len(),
{
    let s = seq_add(a, b, p);
    if s.len() == 0 {
        lemma_mod_twice(0, p);
    } else {
        assert(s.drop_first() =~= seq_add(tail(a), tail(b), p));
        lemma_eval_seq_add(tail(a), tail(b), x, p);
        let ea = eval(tail(a), x, p);
        let eb = eval(tail(b), x, p);
        lemma_eval_unfold(a, x, p);
        lemma_eval_unfold(b, x, p);
        lemma_mod_affine(coef(a, 0) + coef(b, 0), x, ea + eb, p);
        lemma_mul_is_distributive_add(x, ea, eb);
        lemma_add_mod_noop(coef(a, 0) + x * ea, coef(b, 0) + x * eb, p);
    }
}

/// Evaluation turns the coefficientwise difference into the difference of values.
pub proof fn lemma_eval_seq_sub(a: Seq<int>, b: Seq<int>, x: int, p: int)
    requires
        p > 0,
    ensures
        eval(seq_sub(a, b, p), x, p) == (eval(a, x, p) - eval(b, x, p)) % p,
    decreases a.len() + b.len(),
{
    let s = seq_sub(a, b, p);
    if s.len() == 0 {
        lemma_mod_twice(0, p);
    } else {
        assert(s.drop_first() =~= seq_sub(tail(a), tail(b), p));
        lemma_eval_seq_sub(tail(a), tail(b), x, p);
        let ea = eval(tail(a), x, p);
        let eb = eval(tail(b), x, p);
        lemma_eval_unfold(a, x, p);
        lemma_eval_unfold(b, x, p);
        lemma_mod_affine(coef(a, 0) - coef(b, 0), x, ea - eb, p);
        lemma_mul_is_distributive_sub(x, ea, eb);
        lemma_sub_mod_noop(coef(a, 0) + x * ea, coef(b, 0) + x * eb, p);
    }
}

/// Evaluation turns scaling of the coefficients into scaling of the value.
pub proof fn lemma_eval_seq_scale(a: Seq<int>, k: int, x: int, p: int)
    requires
        p > 0,
    ensures
        eval(seq_scale(a, k, p), x, p) == (k * eval(a, x, p)) % p,
    decreases a.len(),
{
    let s = seq_scale(a, k, p);
    if a.len() == 0 {
        lemma_mod_twice(0, p);
    } else {
        assert(s.drop_first() =~= seq_scale(a.drop_first(), k, p));
        lemma_eval_seq_scale(a.drop_first(), k, x, p);
        let ea = eval(a.drop_first(), x, p);
        lemma_mod_affine(a[0] * k, x, k * ea, p);
        lemma_mul_mod_noop_right(k, a[0] + x * ea, p);
        assert(a[0] * k + x * (k * ea) == k * (a[0] + x * ea)) by (nonlinear_arith);
    }
}

/// Prepending a zero coefficient multiplies the value by `x`.
pub proof fn lemma_eval_shift(s: Seq<int>, x: int, p: int)
    requires
        p > 0,
    ensures
        eval(seq![0int].add(s), x, p) == (x * eval(s, x, p)) % p,
{
    assert(seq![0int].add(s).drop_first() =~= s);
}

/// Evaluation turns the product of coefficient sequences into the product of values.
pub proof fn lemma_eval_seq_mul(a: Seq<int>, b: Seq<int>, x: int, p: int)
    requires
        p > 0,
    ensures
        eval(seq_mul(a, b, p), x, p) == (eval(a, x, p) * eval(b, x, p)) % p,
    decreases a.len(),
{
    let eb = eval(b, x, p);
    let ea0 = eval(a, x, p);
    if a.len() == 0 {
        assert(0 * eb == 0) by (nonlinear_arith);
        lemma_small_mod(0, p as nat);
    } else if b.len() == 0 {
        assert(ea0 * 0 == 0) by (nonlinear_arith);
        lemma_small_mod(0, p as nat);
    } else if a.len() == 1 {
        lemma_eval_seq_scale(b, a[0], x, p);
        assert(a.drop_first().len() == 0);
        assert(eval(a.drop_first(), x, p) == 0);
        assert(x * 0 == 0) by (nonlinear_arith);
        lemma_mul_mod_noop_left(a[0], eb, p);
        assert(eval(a, x, p) == a[0] % p);
        assert(eval(seq_mul(a, b, p), x, p) == (a[0] * eb) % p);
    } else {
        let rest = seq_mul(a.drop_first(), b, p);
        let ea = eval(a.drop_first(), x, p);
        lemma_eval_seq_mul(a.drop_first(), b, x, p);
        lemma_eval_seq_add(seq_scale(b, a[0], p), seq![0int].add(rest), x, p);
        lemma_eval_seq_scale(b, a[0], x, p);
        lemma_eval_shift(rest, x, p);
        // ((a0*eb)%p + (x*((ea*eb)%p))%p)%p == (a0*eb + x*ea*eb)%p
        let u = x * ((ea * eb) % p);
        lemma_add_mod_noop(a[0] * eb, u, p);
        lemma_add_mod_noop_right(a[0] * eb, u, p);
        lemma_add_mod_noop_right(a[0] * eb, x * (ea * eb), p);
        lemma_mul_mod_noop_right(x, ea * eb, p);
        lemma_mod_twice(a[0] * eb, p);
        lemma_mul_mod_noop_left(a[0] + x * ea, eb, p);
        assert(a[0] * eb + x * (ea * eb) == (a[0] + x * ea) * eb) by (nonlinear_arith);
        assert(eval(a, x, p) == (a[0] + x * ea) % p);
        assert(seq_mul(a, b, p) == seq_add(seq_scale(b, a[0], p), seq![0int].add(rest), p));
        assert(eval(seq_mul(a, b, p), x, p) == ((a[0] * eb) % p + (x * ((ea * eb) % p)) % p) % p);
        assert(eval(seq_mul(a, b, p), x, p) == (a[0] * eb + u) % p);
        assert(eval(seq_mul(a, b, p), x, p) == (a[0] * eb + x * (ea * eb)) % p);
        assert(eval(seq_mul(a, b, p), x, p) == ((a[0] + x * ea) * eb) % p);
    }
}

/// A trailing zero coefficient does not change the value.
pub proof fn lemma_eval_drop_last_zero(s: Seq<int>, x: int, p: int)
    requires
        p > 0,
        s.len() > 0,
        s.last() == 0,
    ensures
        eval(s, x, p) == eval(s.drop_last(), x, p),
    decreases s.len(),
{
    if s.len() == 1 {
        assert(s[0] == s.last());
        assert(s.drop_first().len() == 0);
        assert(s.drop_last().len() == 0);
        assert(eval(s.drop_first(), x, p) == 0);
        assert(eval(s.drop_last(), x, p) == 0);
        assert(x * 0 == 0) by (nonlinear_arith);
        lemma_small_mod(0, p as nat);
    } else {
        let t = s.drop_first();
        let u = s.drop_last();
        assert(u.drop_first() =~= t.drop_last());
        assert(t.last() == 0);
        lemma_eval_drop_last_zero(t, x, p);
        assert(u[0] == s[0]);
        assert(eval(u, x, p) == (u[0] + x * eval(u.drop_first(), x, p)) % p);
        assert(eval(s, x, p) == (s[0] + x * eval(t, x, p)) % p);
    }
}

/// Trimming trailing zeros does not change the value.
pub proof fn lemma_eval_trim(s: Seq<int>, x: int, p: int)
    requires
        p > 0,
    ensures
        eval(trim_vals(s), x, p) == eval(s, x, p),
    decreases s.len(),
{
    if s.len() > 1 && s.last() == 0 {
        lemma_eval_drop_last_zero(s, x, p);
        lemma_eval_trim(s.drop_last(), x, p);
    }
}

/// Evaluation is additive: `(f + g)(x) == f(x) + g(x)`.
pub proof fn lemma_evaluate_add(f: Seq<int>, g: Seq<int>, x: int, p: int)
    requires
        p > 0,
    ensures
        eval(trim_vals(seq_add(f, g, p)), x, p) == (eval(f, x, p) + eval(g, x, p)) % p,
{
    lemma_eval_trim(seq_add(f, g, p), x, p);
    lemma_eval_seq_add(f, g, x, p);
}

/// Evaluation is subtractive: `(f - g)(x) == f(x) - g(x)`.
pub proof fn lemma_evaluate_sub(f: Seq<int>, g: Seq<int>, x: int, p: int)
    requires
        p > 0,
    ensures
        eval(trim_vals(seq_sub(f, g, p)), x, p) == (eval(f, x, p) - eval(g, x, p)) % p,
{
    lemma_eval_trim(seq_sub(f, g, p), x, p);
    lemma_eval_seq_sub(f, g, x, p);
}

/// Evaluation is multiplicative: `(f · g)(x) == f(x) · g(x)`.
pub proof fn lemma_evaluate_mul(f: Seq<int>, g: Seq<int>, x: int, p: int)
    requires
        p > 0,
    ensures
        eval(trim_vals(seq_mul(f, g, p)), x, p) == (eval(f, x, p) * eval(g, x, p)) % p,
{
    lemma_eval_trim(seq_mul(f, g, p), x, p);
    lemma_eval_seq_mul(f, g, x, p);
}

} // verus!

verus! {

/// `k` zero coefficients.
pub open spec fn zeros(k: nat) -> Seq<int> {
    Seq::new(k, |i: int| 0int)
}

/// Setting a zero coefficient `k` to `v` adds `v * x^k` to the value.
pub proof fn lemma_eval_update_zero(s: Seq<int>, k: int, v: int, x: int, p: int)
    requires
        p > 0,
        0 <= k < s.len(),
        s[k] == 0,
    ensures
        eval(s.update(k, v), x, p) == (eval(s, x, p) + v * pow(x, k as nat)) % p,
    decreases k,
{
    let s2 = s.update(k, v);
    let et = eval(s.drop_first(), x, p);
    if k == 0 {
        assert(s2.drop_first() =~= s.drop_first());
        lemma_pow0(x);
        assert(v * 1 == v);
        lemma_add_mod_noop_right(v, x * et, p);
    } else {
        let t2 = s.drop_first().update(k - 1, v);
        assert(s2.drop_first() =~= t2);
        lemma_eval_update_zero(s.drop_first(), k - 1, v, x, p);
        let pk1 = pow(x, (k - 1) as nat);
        lemma_pow_adds(x, 1, (k - 1) as nat);
        lemma_pow1(x);
        assert(pow(x, k as nat) == x * pk1);
        assert(s2[0] == s[0]);
        assert(eval(s2, x, p) == (s[0] + x * ((et + v * pk1) % p)) % p);
        lemma_mod_affine_raw(s[0], x, et + v * pk1, p);
        assert(x * (et + v * pk1) == x * et + v * (x * pk1)) by (nonlinear_arith);
        lemma_add_mod_noop_right(v * (x * pk1), s[0] + x * et, p);
    }
}

/// Reducing the multiplied part of `c + x * e` first does not change the residue.
pub proof fn lemma_mod_affine_raw(c: int, x: int, e: int, p: int)
    requires
        p > 0,
    ensures
        (c + x * (e % p)) % p == (c + x * e) % p,
{
    lemma_add_mod_noop_right(c, x * (e % p), p);
    lemma_mul_mod_noop_right(x, e, p);
    lemma_add_mod_noop_right(c, x * e, p);
}

/// `k` leading zero coefficients multiply the value by `x^k`.
pub proof fn lemma_eval_shift_k(s: Seq<int>, k: nat, x: int, p: int)
    requires
        p > 0,
    ensures
        eval(zeros(k).add(s), x, p) == (pow(x, k) * eval(s, x, p)) % p,
    decreases k,
{
    let e = eval(s, x, p);
    if k == 0 {
        assert(zeros(k).add(s) =~= s);
        lemma_pow0(x);
        lemma_eval_bound(s, x, p);
        lemma_small_mod(e as nat, p as nat);
    } else {
        assert(zeros(k).add(s) =~= seq![0int].add(zeros((k - 1) as nat).add(s)));
        lemma_eval_shift_k(s, (k - 1) as nat, x, p);
        lemma_eval_shift(zeros((k - 1) as nat).add(s), x, p);
        let pk1 = pow(x, (k - 1) as nat);
        lemma_mul_mod_noop_right(x, pk1 * e, p);
        lemma_pow_adds(x, 1, (k - 1) as nat);
        lemma_pow1(x);
        lemma_mul_is_associative(x, pk1, e);
    }
}

/// One step of long division keeps `dividend == q * d + r` in value.
pub proof fn lemma_division_step(ev: int, eq: int, ed: int, er: int, f: int, xk: int, p: int)
    requires
        p > 0,
        ev == (eq * ed + er) % p,
    ensures
        ev == (((eq + f * xk) % p) * ed + (er - (xk * ((f * ed) % p)) % p) % p) % p,
{
    let eq2 = (eq + f * xk) % p;
    let fe = (f * ed) % p;
    let es = (xk * fe) % p;
    let er2 = (er - es) % p;
    let t1 = (eq + f * xk) / p;
    let t2 = (f * ed) / p;
    let t3 = (xk * fe) / p;
    let t4 = (er - es) / p;
    lemma_fundamental_div_mod(eq + f * xk, p);
    lemma_fundamental_div_mod(f * ed, p);
    lemma_fundamental_div_mod(xk * fe, p);
    lemma_fundamental_div_mod(er - es, p);
    let kk = -t1 * ed + xk * t2 + t3 - t4;
    assert(eq2 * ed + er2 == p * kk + (eq * ed + er)) by (nonlinear_arith)
        requires
            eq + f * xk == p * t1 + eq2,
            f * ed == p * t2 + fe,
            xk * fe == p * t3 + es,
            er - es == p * t4 + er2,
            kk == -t1 * ed + xk * t2 + t3 - t4,
    ;
    lemma_mod_multiples_vanish(kk, eq * ed + er, p);
}

/// Trimming never lengthens, keeps a non-empty sequence non-empty, and drops a
/// trailing zero.
pub proof fn lemma_trim_len(s: Seq<int>)
    ensures
        trim_vals(s).len() <= s.len(),
        s.len() > 0 ==> trim_vals(s).len() > 0,
        s.len() > 1 && s.last() == 0 ==> trim_vals(s).len() < s.len(),
        trim_vals(s) == s.subrange(0, trim_vals(s).len() as int),
    decreases s.len(),
{
    if s.len() > 1 && s.last() == 0 {
        lemma_trim_len(s.drop_last());
        assert(s.drop_last().subrange(0, trim_vals(s).len() as int) =~= s.subrange(
            0,
            trim_vals(s).len() as int,
        ));
    } else {
        assert(s.subrange(0, s.len() as int) =~= s);
    }
}

/// A sequence is all zeros exactly when its trimmed form is empty or `[0]`;
/// otherwise the trimmed form ends in a nonzero coefficient.
pub proof fn lemma_trim_zero(s: Seq<int>)
    ensures
        (forall|i: int| 0 <= i < s.len() ==> #[trigger] s[i] == 0) <==> (trim_vals(s).len() == 0
            || (trim_vals(s).len() == 1 && trim_vals(s)[0] == 0)),
        !(trim_vals(s).len() == 0 || (trim_vals(s).len() == 1 && trim_vals(s)[0] == 0))
            ==> trim_vals(s).last() != 0,
    decreases s.len(),
{
    if s.len() > 1 && s.last() == 0 {
        lemma_trim_zero(s.drop_last());
        if forall|i: int| 0 <= i < s.drop_last().len() ==> #[trigger] s.drop_last()[i] == 0 {
            assert forall|i: int| 0 <= i < s.len() implies #[trigger] s[i] == 0 by {
                if i < s.len() - 1 {
                    assert(s.drop_last()[i] == 0);
                }
            }
        }
        if forall|i: int| 0 <= i < s.len() ==> #[trigger] s[i] == 0 {
            assert forall|i: int| 0 <= i < s.drop_last().len() implies #[trigger] s.drop_last()[i]
                == 0 by {
                assert(s[i] == 0);
            }
        }
    } else if s.len() == 1 {
    } else if s.len() > 1 {
        assert(s[s.len() - 1] != 0);
    }
}

} // verus!

verus! {

/// Under a prime modulus the product of two nonzero residues is nonzero.
pub proof fn lemma_prime_no_zero_divisors(a: int, b: int, p: int)
    requires
        is_prime(p),
        0 < a < p,
        0 < b < p,
    ensures
        (a * b) % p != 0,
{
    lemma_prime_inverse(a, p);
    let z = choose|z: int| 0 <= z < p && #[trigger] ((a * z) % p) == 1int % p;
    if (a * b) % p == 0 {
        lemma_mul_mod_noop_right(z, a * b, p);
        lemma_mul_is_associative(z, a, b);
        lemma_mul_is_commutative(z, a);
        lemma_mul_mod_noop_left(a * z, b, p);
        lemma_small_mod(1, p as nat);
        lemma_small_mod(b as nat, p as nat);
        assert(z * 0 == 0) by (nonlinear_arith);
        lemma_small_mod(0, p as nat);
        assert((z * (a * b)) % p == 0);
        assert(z * (a * b) == (a * z) * b);
        assert(((a * z) % p) == 1);
        assert(1 * b == b);
        assert(((a * z) * b) % p == b);
        assert(false);
    }
}

/// The product sequence has length `len(a) + len(b) - 1` and ends in the
/// product of the leading coefficients.
pub proof fn lemma_seq_mul_shape(a: Seq<int>, b: Seq<int>, p: int)
    requires
        p > 0,
        a.len() > 0,
        b.len() > 0,
    ensures
        seq_mul(a, b, p).len() == a.len() + b.len() - 1,
        seq_mul(a, b, p).last() == (a.last() * b.last()) % p,
    decreases a.len(),
{
    if a.len() == 1 {
        lemma_mul_is_commutative(a.last(), b.last());
    } else {
        let rest = seq_mul(a.drop_first(), b, p);
        lemma_seq_mul_shape(a.drop_first(), b, p);
        let s = seq_mul(a, b, p);
        let l = a.len() + b.len() - 2;
        assert(s[l] == (coef(seq_scale(b, a[0], p), l) + coef(seq![0int].add(rest), l)) % p);
        assert(seq![0int].add(rest)[l] == rest.last());
        lemma_mod_twice(a.last() * b.last(), p);
    }
}

/// Over a prime modulus, the degree of a product of nonzero canonical
/// polynomials is the sum of their degrees.
pub proof fn lemma_degree_of_product(f: Seq<int>, g: Seq<int>, p: int)
    requires
        is_prime(p),
        f.len() > 0,
        g.len() > 0,
        f.last() != 0,
        g.last() != 0,
        0 <= f.last() < p,
        0 <= g.last() < p,
    ensures
        trim_vals(seq_mul(f, g, p)).len() - 1 == (f.len() - 1) + (g.len() - 1),
{
    lemma_seq_mul_shape(f, g, p);
    lemma_prime_no_zero_divisors(f.last(), g.last(), p);
}

} // verus!

verus! {

/// Over a prime modulus `p`, the basis product of node `i` at `x == i`
/// over the nodes `0..j` (with `j <= p`) is nonzero.
pub proof fn lemma_basis_den_nonzero(i: int, j: nat, p: int)
    requires
        is_prime(p),
        0 <= i,
        j <= p,
        i < p,
    ensures
        basis_prod(i, j, i, p) != 0,
        0 <= basis_prod(i, j, i, p) < p,
    decreases j,
{
    if j == 0 {
        lemma_small_mod(1, p as nat);
    } else {
        lemma_basis_den_nonzero(i, (j - 1) as nat, p);
        if j - 1 != i {
            let d = i - (j - 1);
            let f = d % p;
            lemma_mod_bound(d, p);
            if f == 0 {
                // |d| < p and d != 0, so d is no multiple of p
                lemma_fundamental_div_mod(d, p);
                let q = d / p;
                assert(d == p * q);
                assert(-p < d < p);
                assert(d != 0);
                if q >= 1 {
                    assert(p * q >= p) by (nonlinear_arith)
                        requires
                            q >= 1,
                            p > 1,
                    ;
                } else if q <= -1 {
                    assert(p * q <= -p) by (nonlinear_arith)
                        requires
                            q <= -1,
                            p > 1,
                    ;
                } else {
                    assert(q == 0);
                    assert(p * q == 0) by (nonlinear_arith)
                        requires
                            q == 0,
                    ;
                }
                assert(false);
            }
            lemma_prime_no_zero_divisors(basis_prod(i, (j - 1) as nat, i, p), f, p);
            lemma_mod_bound(basis_prod(i, (j - 1) as nat, i, p) * f, p);
        }
    }
}

/// Over a prime modulus `p`, interpolation on at most `p` nodes always
/// succeeds: every basis denominator is invertible.
pub proof fn lemma_interpolation_succeeds(ys: Seq<int>, p: int)
    requires
        is_prime(p),
        ys.len() <= p,
    ensures
        interpolable(ys, p),
{
    assert forall|i: int| 0 <= i < ys.len() && ys[i] != 0 implies has_inverse(
        #[trigger] basis_prod(i, ys.len() as nat, i, p),
        p,
    ) by {
        lemma_basis_den_nonzero(i, ys.len() as nat, p);
        lemma_prime_inverse(basis_prod(i, ys.len() as nat, i, p), p);
    }
}

} // verus!

verus! {

/// Coefficient `i` of a sum is the sum of the coefficients.
pub proof fn lemma_coef_add(x: Seq<int>, y: Seq<int>, p: int, i: int)
    requires
        p > 0,
        i >= 0,
    ensures
        coef(seq_add(x, y, p), i) == (coef(x, i) + coef(y, i)) % p,
{
    if i >= seq_add(x, y, p).len() {
        lemma_small_mod(0, p as nat);
    }
}

/// Coefficient `i` of a difference is the difference of the coefficients.
pub proof fn lemma_coef_sub(x: Seq<int>, y: Seq<int>, p: int, i: int)
    requires
        p > 0,
        i >= 0,
    ensures
        coef(seq_sub(x, y, p), i) == (coef(x, i) - coef(y, i)) % p,
{
    if i >= seq_sub(x, y, p).len() {
        lemma_small_mod(0, p as nat);
    }
}

/// Coefficient `i` of a scaled sequence is the scaled coefficient.
pub proof fn lemma_coef_scale(x: Seq<int>, k: int, p: int, i: int)
    requires
        p > 0,
        i >= 0,
    ensures
        coef(seq_scale(x, k, p), i) == (coef(x, i) * k) % p,
{
    if i >= x.len() {
        assert(0 * k == 0) by (nonlinear_arith);
        lemma_small_mod(0, p as nat);
    }
}

/// Coefficient `i` after `k` leading zeros is coefficient `i - k` before.
pub proof fn lemma_coef_zeros(s: Seq<int>, k: nat, i: int)
    requires
        i >= 0,
    ensures
        coef(zeros(k).add(s), i) == if i < k {
            0
        } else {
            coef(s, i - k)
        },
{
}

/// Trimming keeps every coefficient.
pub proof fn lemma_coef_trim(s: Seq<int>, i: int)
    requires
        i >= 0,
    ensures
        coef(trim_vals(s), i) == coef(s, i),
    decreases s.len(),
{
    if s.len() > 1 && s.last() == 0 {
        lemma_coef_trim(s.drop_last(), i);
    }
}

/// A trailing zero of the first factor does not change the product's coefficients.
pub proof fn lemma_coef_mul_drop_last_zero(a: Seq<int>, b: Seq<int>, p: int, i: int)
    requires
        p > 0,
        i >= 0,
        a.len() > 0,
        a.last() == 0,
    ensures
        coef(seq_mul(a, b, p), i) == coef(seq_mul(a.drop_last(), b, p), i),
    decreases a.len(),
{
    if b.len() == 0 {
    } else if a.len() == 1 {
        assert(a[0] == 0);
        lemma_coef_scale(b, 0, p, i);
        assert(coef(b, i) * 0 == 0) by (nonlinear_arith);
        lemma_small_mod(0, p as nat);
    } else if a.len() == 2 {
        // a == [a0, 0]: the shifted product is all zeros
        let t = a.drop_first();
        let inner = seq_mul(t, b, p);
        assert(a.drop_last() =~= seq![a[0]]);
        lemma_coef_add(seq_scale(b, a[0], p), seq![0int].add(inner), p, i);
        if i >= 1 {
            assert(coef(seq![0int].add(inner), i) == coef(inner, i - 1));
            lemma_coef_mul_drop_last_zero(t, b, p, i - 1);
            assert(t.drop_last().len() == 0);
        }
        lemma_coef_scale(b, a[0], p, i);
        lemma_mod_twice(coef(b, i) * a[0], p);
    } else {
        let t = a.drop_first();
        assert(a.drop_last().drop_first() =~= t.drop_last());
        lemma_coef_add(seq_scale(b, a[0], p), seq![0int].add(seq_mul(t, b, p)), p, i);
        lemma_coef_add(
            seq_scale(b, a[0], p),
            seq![0int].add(seq_mul(t.drop_last(), b, p)),
            p,
            i,
        );
        if i >= 1 {
            lemma_coef_mul_drop_last_zero(t, b, p, i - 1);
        }
    }
}

/// Trailing zeros of the first factor do not change the product's coefficients.
pub proof fn lemma_coef_mul_trim(a: Seq<int>, b: Seq<int>, p: int, i: int)
    requires
        p > 0,
        i >= 0,
    ensures
        coef(seq_mul(trim_vals(a), b, p), i) == coef(seq_mul(a, b, p), i),
    decreases a.len(),
{
    if a.len() > 1 && a.last() == 0 {
        lemma_coef_mul_drop_last_zero(a, b, p, i);
        lemma_coef_mul_trim(a.drop_last(), b, p, i);
    }
}

/// Setting a zero coefficient `k` of the first factor to `f` adds
/// `f · x^k · b` to the product, coefficient by coefficient.
pub proof fn lemma_coef_mul_update_zero(q: Seq<int>, b: Seq<int>, k: int, f: int, p: int, i: int)
    requires
        p > 0,
        i >= 0,
        0 <= k < q.len(),
        q[k] == 0,
        b.len() > 0,
    ensures
        coef(seq_mul(q.update(k, f), b, p), i) == (coef(seq_mul(q, b, p), i) + coef(
            zeros(k as nat).add(seq_scale(b, f, p)),
            i,
        )) % p,
    decreases k,
{
    let q2 = q.update(k, f);
    let s = zeros(k as nat).add(seq_scale(b, f, p));
    lemma_coef_zeros(seq_scale(b, f, p), k as nat, i);
    if k == 0 {
        lemma_coef_scale(b, f, p, i);
        lemma_coef_scale(b, 0, p, i);
        assert(coef(b, i) * 0 == 0) by (nonlinear_arith);
        lemma_small_mod(0, p as nat);
        if q.len() == 1 {
            lemma_mod_twice(coef(b, i) * f, p);
        } else {
            assert(q2.drop_first() =~= q.drop_first());
            let sh = seq![0int].add(seq_mul(q.drop_first(), b, p));
            lemma_coef_add(seq_scale(b, f, p), sh, p, i);
            lemma_coef_add(seq_scale(b, 0, p), sh, p, i);
            let c = coef(sh, i);
            let g = (coef(b, i) * f) % p;
            // (g + c) % p == ((0 + c) % p + g) % p
            lemma_add_mod_noop_right(g, c, p);
            lemma_mod_twice(c, p);
            lemma_add_mod_noop(c, g, p);
            lemma_mod_twice(g, p);
        }
    } else {
        let t = q.drop_first();
        let t2 = q2.drop_first();
        assert(t2 =~= t.update(k - 1, f));
        assert(q2[0] == q[0]);
        let a0 = seq_scale(b, q[0], p);
        lemma_coef_add(a0, seq![0int].add(seq_mul(t2, b, p)), p, i);
        lemma_coef_add(a0, seq![0int].add(seq_mul(t, b, p)), p, i);
        if i == 0 {
            lemma_mod_twice(coef(a0, 0), p);
            lemma_small_mod(0, p as nat);
            assert(coef(a0, 0) + 0 == coef(a0, 0));
            lemma_mod_twice(coef(a0, 0) + 0, p);
        } else {
            lemma_coef_mul_update_zero(t, b, k - 1, f, p, i - 1);
            lemma_coef_zeros(seq_scale(b, f, p), (k - 1) as nat, i - 1);
            let u = coef(a0, i);
            let m1 = coef(seq_mul(t, b, p), i - 1);
            let z = coef(s, i);
            // (u + (m1 + z) % p) % p == ((u + m1) % p + z) % p
            lemma_add_mod_noop_right(u, m1 + z, p);
            lemma_add_mod_noop_right(z, u + m1, p);
        }
    }
}

} // verus!

verus! {

/// `dividend == q · divisor + r` as polynomials: every coefficient agrees.
pub open spec fn is_division(dividend: Seq<int>, divisor: Seq<int>, q: Seq<int>, r: Seq<int>, p: int) -> bool {
    forall|i: int|
        i >= 0 ==> #[trigger] coef(dividend, i) == coef(seq_add(seq_mul(q, divisor, p), r, p), i)
}

/// A product with an all-zero first factor has only zero coefficients.
pub proof fn lemma_coef_mul_zero(a: Seq<int>, b: Seq<int>, p: int, i: int)
    requires
        p > 0,
        i >= 0,
        forall|j: int| 0 <= j < a.len() ==> #[trigger] a[j] == 0,
    ensures
        coef(seq_mul(a, b, p), i) == 0,
    decreases a.len(),
{
    lemma_small_mod(0, p as nat);
    if a.len() == 0 || b.len() == 0 {
    } else {
        lemma_coef_scale(b, 0, p, i);
        assert(coef(b, i) * 0 == 0) by (nonlinear_arith);
        assert(a[0] == 0);
        if a.len() > 1 {
            let t = a.drop_first();
            assert forall|j: int| 0 <= j < t.len() implies #[trigger] t[j] == 0 by {
                assert(t[j] == a[j + 1]);
            }
            lemma_coef_add(seq_scale(b, 0, p), seq![0int].add(seq_mul(t, b, p)), p, i);
            if i >= 1 {
                lemma_coef_mul_zero(t, b, p, i - 1);
            }
        }
    }
}

} // verus!

verus! {

/// The quotient of synthetic division of `s` by `x - a`:
/// `s(x) == (x - a) · synth_quotient(s, a)(x) + s(a)`.
pub open spec fn synth_quotient(s: Seq<int>, a: int, p: int) -> Seq<int>
    decreases s.len(),
{
    if s.len() <= 1 {
        Seq::empty()
    } else {
        seq![eval(s.drop_first(), a, p)].add(synth_quotient(s.drop_first(), a, p))
    }
}

/// Synthetic division: `s(x) == (x - a) · q(x) + s(a)`.
pub proof fn lemma_synthetic_division(s: Seq<int>, a: int, x: int, p: int)
    requires
        p > 0,
    ensures
        synth_quotient(s, a, p).len() == if s.len() == 0 {
            0
        } else {
            s.len() - 1
        },
        eval(s, x, p) == ((x - a) * eval(synth_quotient(s, a, p), x, p) + eval(s, a, p)) % p,
    decreases s.len(),
{
    let q = synth_quotient(s, a, p);
    if s.len() == 0 {
        lemma_small_mod(0, p as nat);
        assert((x - a) * 0 == 0) by (nonlinear_arith);
    } else if s.len() == 1 {
        assert(s.drop_first().len() == 0);
        assert(eval(s.drop_first(), x, p) == 0);
        assert(eval(s.drop_first(), a, p) == 0);
        assert(x * 0 == 0) by (nonlinear_arith);
        assert(a * 0 == 0) by (nonlinear_arith);
        assert((x - a) * 0 == 0) by (nonlinear_arith);
        lemma_mod_twice(s[0], p);
    } else {
        let t = s.drop_first();
        lemma_synthetic_division(t, a, x, p);
        let qt = synth_quotient(t, a, p);
        let qq = eval(qt, x, p);
        let rt = eval(t, a, p);
        let et = eval(t, x, p);
        assert(q.drop_first() =~= qt);
        assert(q[0] == rt);
        // eval(q, x) == (rt + x * qq) % p
        let eq = eval(q, x, p);
        let es = eval(s, x, p);
        let ea = eval(s, a, p);
        // es == (s0 + x * et) % p, et == ((x - a) * qq + rt) % p, ea == (s0 + a * rt) % p
        let t1 = ((x - a) * qq + rt) / p;
        let t2 = (rt + x * qq) / p;
        let t3 = (s[0] + a * rt) / p;
        lemma_fundamental_div_mod((x - a) * qq + rt, p);
        lemma_fundamental_div_mod(rt + x * qq, p);
        lemma_fundamental_div_mod(s[0] + a * rt, p);
        let lhs = s[0] + x * et;
        let rhs = (x - a) * eq + ea;
        let kk = (x - a) * t2 + t3 - x * t1;
        let u = (x - a) * qq;
        let v = x * qq;
        assert(et == u + rt - p * t1);
        assert(eq == rt + v - p * t2);
        assert(ea == s[0] + a * rt - p * t3);
        assert(x * u == (x - a) * v) by (nonlinear_arith)
            requires
                u == (x - a) * qq,
                v == x * qq,
        ;
        assert(x * et == x * u + x * rt - x * (p * t1)) by (nonlinear_arith)
            requires
                et == u + rt - p * t1,
        ;
        assert((x - a) * eq == (x - a) * rt + (x - a) * v - (x - a) * (p * t2)) by (nonlinear_arith)
            requires
                eq == rt + v - p * t2,
        ;
        assert((x - a) * rt + a * rt == x * rt) by (nonlinear_arith);
        assert(x * (p * t1) == p * (x * t1)) by (nonlinear_arith);
        assert((x - a) * (p * t2) == p * ((x - a) * t2)) by (nonlinear_arith);
        assert(p * kk == p * ((x - a) * t2) + p * t3 - p * (x * t1)) by (nonlinear_arith)
            requires
                kk == (x - a) * t2 + t3 - x * t1,
        ;
        assert(lhs == rhs + p * kk);
        lemma_mod_multiples_vanish(kk, rhs, p);
    }
}

/// All coefficients of `s` are residues modulo `p`.
pub open spec fn residues(s: Seq<int>, p: int) -> bool {
    forall|i: int| 0 <= i < s.len() ==> 0 <= #[trigger] s[i] < p
}

/// Every coefficient of `s` is zero.
pub open spec fn all_zero(s: Seq<int>) -> bool {
    forall|i: int| 0 <= i < s.len() ==> #[trigger] s[i] == 0
}

/// If `s(a) == 0` and the synthetic quotient is zero, `s` is zero.
proof fn lemma_zero_from_synthetic(s: Seq<int>, a: int, p: int)
    requires
        p > 0,
        residues(s, p),
        eval(s, a, p) == 0,
        all_zero(synth_quotient(s, a, p)),
    ensures
        all_zero(s),
    decreases s.len(),
{
    if s.len() == 0 {
    } else if s.len() == 1 {
        assert(s.drop_first().len() == 0);
        assert(eval(s.drop_first(), a, p) == 0);
        assert(a * 0 == 0) by (nonlinear_arith);
        lemma_small_mod(s[0] as nat, p as nat);
    } else {
        let t = s.drop_first();
        let q = synth_quotient(s, a, p);
        assert(q[0] == eval(t, a, p));
        assert(q.drop_first() =~= synth_quotient(t, a, p));
        assert forall|i: int| 0 <= i < synth_quotient(t, a, p).len() implies #[trigger] synth_quotient(
            t,
            a,
            p,
        )[i] == 0 by {
            assert(q[i + 1] == 0);
        }
        assert forall|i: int| 0 <= i < t.len() implies 0 <= #[trigger] t[i] < p by {
            assert(t[i] == s[i + 1]);
        }
        lemma_zero_from_synthetic(t, a, p);
        assert(a * 0 == 0) by (nonlinear_arith);
        lemma_small_mod(s[0] as nat, p as nat);
        assert forall|i: int| 0 <= i < s.len() implies #[trigger] s[i] == 0 by {
            if i > 0 {
                assert(s[i] == t[i - 1]);
            }
        }
    }
}

/// Over a prime modulus, a polynomial with at most `m <= p` coefficients
/// that vanishes at `0, 1, ..., m - 1` is the zero polynomial.
pub proof fn lemma_root_count(s: Seq<int>, m: nat, p: int)
    requires
        is_prime(p),
        m <= p,
        s.len() <= m,
        residues(s, p),
        forall|k: int| 0 <= k < m ==> #[trigger] eval(s, k, p) == 0,
    ensures
        all_zero(s),
    decreases m,
{
    if s.len() == 0 {
    } else {
        let a = m - 1;
        let q = synth_quotient(s, a, p);
        lemma_synthetic_division(s, a, 0, p);
        assert forall|k: int| 0 <= k < m - 1 implies #[trigger] eval(q, k, p) == 0 by {
            lemma_synthetic_division(s, a, k, p);
            let qk = eval(q, k, p);
            lemma_eval_bound(q, k, p);
            let d = (k - a) % p;
            lemma_mod_bound(k - a, p);
            // (k - a) * qk + 0 == 0 mod p
            assert(eval(s, a, p) == 0);
            assert(((k - a) * qk + 0) % p == 0);
            lemma_mul_mod_noop_left(k - a, qk, p);
            if qk != 0 {
                if d == 0 {
                    // 0 < a - k < p
                    lemma_fundamental_div_mod(k - a, p);
                    let qq = (k - a) / p;
                    assert(k - a == p * qq);
                    if qq >= 0 {
                        assert(p * qq >= 0) by (nonlinear_arith)
                            requires
                                qq >= 0,
                                p > 0,
                        ;
                    } else {
                        assert(p * qq <= -p) by (nonlinear_arith)
                            requires
                                qq <= -1,
                                p > 0,
                        ;
                    }
                }
                lemma_prime_no_zero_divisors(d, qk, p);
            }
        }
        assert forall|i: int| 0 <= i < q.len() implies 0 <= #[trigger] q[i] < p by {
            lemma_synth_residues(s, a, p, i);
        }
        lemma_root_count(q, (m - 1) as nat, p);
        lemma_zero_from_synthetic(s, a, p);
    }
}

/// The synthetic quotient's coefficients are values of `eval`, so residues.
proof fn lemma_synth_residues(s: Seq<int>, a: int, p: int, i: int)
    requires
        p > 0,
        0 <= i < synth_quotient(s, a, p).len(),
    ensures
        0 <= synth_quotient(s, a, p)[i] < p,
    decreases s.len(),
{
    let t = s.drop_first();
    if i == 0 {
        lemma_eval_bound(t, a, p);
    } else {
        assert(synth_quotient(s, a, p)[i] == synth_quotient(t, a, p)[i - 1]);
        lemma_synth_residues(t, a, p, i - 1);
    }
}

} // verus!
