use crate::field::{has_inverse, FieldElement};
use vstd::arithmetic::div_mod::*;
use vstd::arithmetic::mul::*;
use vstd::prelude::*;

verus! {

/// `p` is a prime number.
pub open spec fn is_prime(p: int) -> bool {
    p > 1 && forall|d: int| 1 < d < p ==> #[trigger] (p % d) != 0
}

/// Addition and multiplication of residues are commutative and associative,
/// and multiplication distributes over addition.
pub proof fn lemma_field_ring_laws(a: int, b: int, c: int, p: int)
    requires
        p > 0,
    ensures
        (a + b) % p == (b + a) % p,
        (a * b) % p == (b * a) % p,
        (((a + b) % p) + c) % p == (a + ((b + c) % p)) % p,
        (((a * b) % p) * c) % p == (a * ((b * c) % p)) % p,
        (a * ((b + c) % p)) % p == (((a * b) % p) + ((a * c) % p)) % p,
{
    lemma_mul_is_commutative(a, b);
    lemma_add_mod_noop_right(c, a + b, p);
    lemma_add_mod_noop_right(a, b + c, p);
    lemma_mod_twice(a + b, p);
    lemma_mod_twice(b + c, p);
    lemma_mod_twice(c, p);
    lemma_mod_twice(a, p);
    lemma_mul_mod_noop_left(a * b, c, p);
    lemma_mul_mod_noop_right(a, b * c, p);
    lemma_mul_is_associative(a, b, c);
    lemma_mul_mod_noop_right(a, b + c, p);
    lemma_mul_is_distributive_add(a, b, c);
    lemma_add_mod_noop(a * b, a * c, p);
}

/// Bezout: some combination of `a` and `b` equals a common divisor of both.
proof fn lemma_bezout(a: int, b: int) -> (r: (int, int, int))
    requires
        a >= 0,
        b > 0,
    ensures
        r.2 > 0,
        r.2 <= b,
        a % r.2 == 0,
        b % r.2 == 0,
        a * r.0 + b * r.1 == r.2,
    decreases b,
{
    let m = a % b;
    let q = a / b;
    lemma_fundamental_div_mod(a, b);
    lemma_mod_bound(a, b);
    if m == 0 {
        lemma_mod_self_0(b);
        (0, 1, b)
    } else {
        let (x1, y1, g) = lemma_bezout(b, m);
        // b*x1 + m*y1 == g, with m == a - q*b
        assert(a * y1 + b * (x1 - q * y1) == g) by (nonlinear_arith)
            requires
                b * x1 + m * y1 == g,
                a == b * q + m,
        ;
        // g divides a == q*b + m
        let kb = b / g;
        let km = m / g;
        lemma_fundamental_div_mod(b, g);
        lemma_fundamental_div_mod(m, g);
        assert(a == g * (q * kb + km)) by (nonlinear_arith)
            requires
                a == b * q + m,
                b == g * kb,
                m == g * km,
        ;
        lemma_mod_multiples_basic(q * kb + km, g);
        lemma_mul_is_commutative(g, q * kb + km);
        (y1, x1 - q * y1, g)
    }
}

/// Under a prime modulus every nonzero residue is invertible, and zero is not.
pub proof fn lemma_prime_inverse(a: int, p: int)
    requires
        is_prime(p),
        0 <= a < p,
    ensures
        a != 0 <==> has_inverse(a, p),
{
    if a != 0 {
        let (x, y, g) = lemma_bezout(a, p);
        // g divides p and g <= a < p, so g == 1
        if g > 1 {
            lemma_mod_is_zero(a as nat, g as nat);
            assert(p % g != 0);
        }
        assert(g == 1);
        let xr = x % p;
        lemma_mod_bound(x, p);
        lemma_mul_mod_noop_right(a, x, p);
        lemma_mod_multiples_vanish(y, a * x, p);
        lemma_mul_is_commutative(p, y);
        assert((a * xr) % p == 1int % p);
        assert(has_inverse(a, p));
    } else {
        assert forall|x: int| 0 <= x < p implies #[trigger] ((a * x) % p) != 1int % p by {
            lemma_mul_basics(x);
            lemma_small_mod(1, p as nat);
        }
    }
}

/// Every nonzero element times its inverse is one; zero has no inverse.
pub proof fn lemma_inverse_law(a: FieldElement)
    requires
        a.wf(),
        is_prime(a.p as int),
    ensures
        a.value != 0 ==> has_inverse(a.value as int, a.p as int),
        a.value == 0 ==> !has_inverse(a.value as int, a.p as int),
        1int % (a.p as int) == 1,
{
    lemma_prime_inverse(a.value as int, a.p as int);
    lemma_small_mod(1, a.p as nat);
}

/// If `r` squares to `a`, so does `p - r`.
pub proof fn lemma_sqrt_both_roots(a: int, r: int, p: int)
    requires
        p > 0,
        (r * r) % p == a,
    ensures
        ((p - r) * (p - r)) % p == a,
{
    assert((p - r) * (p - r) == r * r + p * (p - 2 * r)) by (nonlinear_arith);
    lemma_mod_multiples_vanish(p - 2 * r, r * r, p);
    lemma_mul_is_commutative(p, p - 2 * r);
}

} // verus!
