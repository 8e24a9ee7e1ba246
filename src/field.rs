use crate::error::ArithError;
use num_bigint::BigUint;
use vstd::arithmetic::div_mod::*;
use vstd::arithmetic::mul::*;
use vstd::arithmetic::power::*;
use vstd::prelude::*;

verus! {

/// An element of the integers modulo `p`, stored as its least non-negative residue.
///
/// The modulus is expected to be prime; this is not checked. Operations that
/// only make sense over a field (inverses, square roots) report a failure
/// instead of producing a wrong value when the modulus is composite.
#[derive(Debug, Clone, Copy, PartialEq, Eq, Structural)]
pub struct FieldElement {
    pub value: u64,
    pub p: u64,
}

/// `a` has a multiplicative inverse modulo `p`.
pub open spec fn has_inverse(a: int, p: int) -> bool {
    exists|x: int| 0 <= x < p && #[trigger] ((a * x) % p) == 1int % p
}

/// `e`-fold repeated multiplication of `a` modulo `p`, starting from one.
pub open spec fn field_pow(a: int, e: nat, p: int) -> int
    decreases e,
{
    if e == 0 {
        1int % p
    } else {
        (field_pow(a, (e - 1) as nat, p) * a) % p
    }
}

impl FieldElement {
    /// The value is a residue of a positive modulus.
    pub open spec fn wf(self) -> bool {
        0 < self.p && self.value < self.p
    }

    /// Reduces `value` into `[0, p)` by the mathematical (never negative) remainder.
    pub fn new(value: i128, p: u64) -> (r: FieldElement)
        requires
            p > 0,
        ensures
            r.p == p,
            r.value == (value as int) % (p as int),
            r.wf(),
    {
        let m: u128 = p as u128;
        if value >= 0 {
            let v: u64 = ((value as u128) % m) as u64;
            FieldElement { value: v, p }
        } else {
            let mag: u128 = ((-(value + 1)) as u128) + 1;
            let rem: u128 = mag % m;
            proof {
                assert(mag == -value);
                lemma_fundamental_div_mod(mag as int, m as int);
                let q = mag as int / m as int;
                assert(value == (-q - 1) * (m as int) + (m as int - rem as int)) by (nonlinear_arith)
                    requires
                        mag as int == q * m as int + rem as int,
                        value == -(mag as int),
                ;
                if rem == 0 {
                    assert(value == (-q) * (m as int) + 0) by (nonlinear_arith)
                        requires
                            mag as int == q * m as int + rem as int,
                            value == -(mag as int),
                            rem == 0,
                    ;
                    lemma_fundamental_div_mod_converse(value as int, m as int, -q, 0);
                } else {
                    lemma_fundamental_div_mod_converse(
                        value as int,
                        m as int,
                        -q - 1,
                        m as int - rem as int,
                    );
                }
            }
            if rem == 0 {
                FieldElement { value: 0, p }
            } else {
                FieldElement { value: (m - rem) as u64, p }
            }
        }
    }

    /// The sum modulo `p`; fails when the moduli differ.
    pub fn add(&self, other: &FieldElement) -> (r: Result<FieldElement, ArithError>)
        requires
            self.wf(),
            other.wf(),
        ensures
            self.p != other.p ==> r == Err::<FieldElement, ArithError>(ArithError::FieldMismatch),
            self.p == other.p ==> r is Ok && r->Ok_0.p == self.p && r->Ok_0.value == (self.value
                + other.value) % (self.p as int),
    {
        if self.p != other.p {
            return Err(ArithError::FieldMismatch);
        }
        let v: u128 = (self.value as u128 + other.value as u128) % (self.p as u128);
        Ok(FieldElement { value: v as u64, p: self.p })
    }

    /// The difference modulo `p`; fails when the moduli differ.
    pub fn sub(&self, other: &FieldElement) -> (r: Result<FieldElement, ArithError>)
        requires
            self.wf(),
            other.wf(),
        ensures
            self.p != other.p ==> r == Err::<FieldElement, ArithError>(ArithError::FieldMismatch),
            self.p == other.p ==> r is Ok && r->Ok_0.p == self.p && r->Ok_0.value == (self.value
                - other.value) % (self.p as int),
    {
        if self.p != other.p {
            return Err(ArithError::FieldMismatch);
        }
        let m: u128 = self.p as u128;
        let v: u128 = (self.value as u128 + m - other.value as u128) % m;
        proof {
            lemma_mod_add_multiples_vanish(self.value - other.value, m as int);
        }
        Ok(FieldElement { value: v as u64, p: self.p })
    }

    /// The product modulo `p`; fails when the moduli differ.
    pub fn mul(&self, other: &FieldElement) -> (r: Result<FieldElement, ArithError>)
        requires
            self.wf(),
            other.wf(),
        ensures
            self.p != other.p ==> r == Err::<FieldElement, ArithError>(ArithError::FieldMismatch),
            self.p == other.p ==> r is Ok && r->Ok_0.p == self.p && r->Ok_0.value == (self.value
                * other.value) % (self.p as int),
    {
        if self.p != other.p {
            return Err(ArithError::FieldMismatch);
        }
        proof {
            lemma_mul_upper_bound(
                self.value as int,
                0xffff_ffff_ffff_ffff,
                other.value as int,
                0xffff_ffff_ffff_ffff,
            );
        }
        let v: u128 = (self.value as u128 * other.value as u128) % (self.p as u128);
        Ok(FieldElement { value: v as u64, p: self.p })
    }

    /// The multiplicative inverse; fails exactly when none exists (for a prime
    /// modulus, exactly for zero).
    pub fn inverse(&self) -> (r: Result<FieldElement, ArithError>)
        requires
            self.wf(),
        ensures
            r is Ok <==> has_inverse(self.value as int, self.p as int),
            r is Err ==> r == Err::<FieldElement, ArithError>(ArithError::NoInverse),
            r is Ok ==> r->Ok_0.wf() && r->Ok_0.p == self.p && (self.value * r->Ok_0.value) % (
            self.p as int) == 1int % (self.p as int),
    {
        match mod_inverse(self.value, self.p) {
            Some(x) => Ok(FieldElement { value: x, p: self.p }),
            None => Err(ArithError::NoInverse),
        }
    }

    /// `self * other⁻¹`; fails on mismatched moduli or a non-invertible divisor.
    pub fn div(&self, other: &FieldElement) -> (r: Result<FieldElement, ArithError>)
        requires
            self.wf(),
            other.wf(),
        ensures
            self.p != other.p ==> r == Err::<FieldElement, ArithError>(ArithError::FieldMismatch),
            self.p == other.p && !has_inverse(other.value as int, other.p as int) ==> r == Err::<
                FieldElement,
                ArithError,
            >(ArithError::NoInverse),
            self.p == other.p && has_inverse(other.value as int, other.p as int) ==> r is Ok
                && r->Ok_0.wf() && r->Ok_0.p == self.p && (r->Ok_0.value * other.value) % (
            self.p as int) == self.value as int,
    {
        if self.p != other.p {
            return Err(ArithError::FieldMismatch);
        }
        let inv = other.inverse()?;
        let r = self.mul(&inv);
        proof {
            let p = self.p as int;
            let a = self.value as int;
            let b = other.value as int;
            let x = inv.value as int;
            // (a*x % p) * b % p == a * (x*b % p) % p == a * (1 % p) % p == a
            lemma_mul_mod_noop_left(a * x, b, p);
            lemma_mul_is_associative(a, x, b);
            lemma_mul_is_commutative(x, b);
            lemma_mul_mod_noop_right(a, b * x, p);
            lemma_mul_mod_noop_right(a, 1, p);
            lemma_small_mod(a as nat, p as nat);
        }
        r
    }

    /// Square-and-multiply exponentiation: `exponent`-fold repeated multiplication.
    pub fn pow(&self, exponent: u64) -> (r: FieldElement)
        requires
            self.wf(),
        ensures
            r.wf(),
            r.p == self.p,
            r.value == field_pow(self.value as int, exponent as nat, self.p as int),
    {
        let p = self.p;
        let one = FieldElement::new(1, p);
        let mut res = one;
        let mut base = *self;
        let mut exp: u64 = exponent;
        proof {
            lemma_field_pow_is_pow(self.value as int, exponent as nat, p as int);
            lemma_mul_mod_noop_left(1, pow(self.value as int, exponent as nat), p as int);
        }
        while exp > 0
            invariant
                res.wf(),
                base.wf(),
                res.p == p,
                base.p == p,
                p == self.p,
                (res.value * pow(base.value as int, exp as nat)) % (p as int) == pow(
                    self.value as int,
                    exponent as nat,
                ) % (p as int),
            decreases exp,
        {
            let ghost old_res = res.value as int;
            let ghost old_base = base.value as int;
            let ghost old_exp = exp as nat;
            let ghost m = p as int;
            let half: u64 = exp / 2;
            if exp % 2 == 1 {
                res = res.mul(&base).unwrap();
                proof {
                    // res * base * base^(2h) == res * base^(2h+1)
                    lemma_pow_adds(old_base, 1, (old_exp - 1) as nat);
                    lemma_pow1(old_base);
                    lemma_mul_is_associative(old_res, old_base, pow(old_base, (old_exp - 1) as nat));
                    lemma_mul_mod_noop_left(old_res * old_base, pow(old_base, (old_exp - 1) as nat), m);
                }
            }
            base = base.mul(&base).unwrap();
            exp = half;
            proof {
                let e2 = if old_exp % 2 == 1 { (old_exp - 1) as nat } else { old_exp };
                assert(e2 == 2 * half);
                // pow(b*b % m, h) % m == pow(b, 2h) % m
                lemma_pow_mod_noop(old_base * old_base, half as nat, m);
                lemma_square_is_pow2(old_base);
                lemma_pow_multiplies(old_base, 2, half as nat);
                lemma_mul_mod_noop_right(res.value as int, pow(base.value as int, half as nat), m);
                lemma_mul_mod_noop_right(res.value as int, pow(old_base, e2), m);
                if old_exp % 2 == 1 {
                    lemma_mul_mod_noop_left(old_res * old_base, pow(old_base, e2), m);
                }
            }
        }
        proof {
            lemma_pow0(base.value as int);
            lemma_small_mod(res.value as nat, p as nat);
        }
        res
    }

    /// Square root for a modulus congruent to 3 mod 4: the candidate
    /// `self^((p+1)/4)` is returned when it squares back to `self`, otherwise
    /// there is no root.
    pub fn sqrt(&self) -> (r: Result<Option<FieldElement>, ArithError>)
        requires
            self.wf(),
        ensures
            self.p % 4 != 3 ==> r == Err::<Option<FieldElement>, ArithError>(
                ArithError::UnsupportedModulus,
            ),
            self.p % 4 == 3 ==> r is Ok,
            self.p % 4 == 3 ==> ({
                let c = field_pow(self.value as int, ((self.p + 1) / 4) as nat, self.p as int);
                &&& (c * c) % (self.p as int) == self.value ==> r == Ok::<
                    Option<FieldElement>,
                    ArithError,
                >(Some(FieldElement { value: c as u64, p: self.p }))
                &&& (c * c) % (self.p as int) != self.value ==> r == Ok::<
                    Option<FieldElement>,
                    ArithError,
                >(None)
            }),
    {
        if self.p % 4 != 3 {
            return Err(ArithError::UnsupportedModulus);
        }
        let exponent: u64 = self.p / 4 + 1;
        let root = self.pow(exponent);
        let sq = root.mul(&root).unwrap();
        if sq.value == self.value {
            Ok(Some(root))
        } else {
            Ok(None)
        }
    }
}

/// Repeated multiplication modulo `p` is the integer power reduced modulo `p`.
pub proof fn lemma_field_pow_is_pow(a: int, e: nat, p: int)
    requires
        p > 0,
    ensures
        field_pow(a, e, p) == pow(a, e) % p,
    decreases e,
{
    if e == 0 {
        lemma_pow0(a);
    } else {
        lemma_field_pow_is_pow(a, (e - 1) as nat, p);
        lemma_mul_mod_noop_left(pow(a, (e - 1) as nat), a, p);
        lemma_pow_adds(a, (e - 1) as nat, 1);
        lemma_pow1(a);
        lemma_mul_is_commutative(a, pow(a, (e - 1) as nat));
    }
}

/// Relies on `BigUint::modinv` (num-bigint): the inverse of `a` modulo `m`
/// in `[0, m)`, or `None` exactly when no inverse exists.
#[verifier::external_body]
fn mod_inverse(a: u64, m: u64) -> (r: Option<u64>)
    requires
        m > 0,
    ensures
        r is Some <==> has_inverse(a as int, m as int),
        r is Some ==> r->Some_0 < m && (a * r->Some_0) % (m as int) == 1int % (m as int),
{
    match BigUint::from(a).modinv(&BigUint::from(m)) {
        Some(x) => u64::try_from(x).ok(),
        None => None,
    }
}

} // verus!
