use arith_pipeline::error::ArithError;
use arith_pipeline::field::FieldElement;

fn fe(v: i128, p: u64) -> FieldElement {
    FieldElement::new(v, p)
}

#[test]
fn new_normalizes_into_range() {
    assert_eq!(fe(20, 17).value, 3);
    assert_eq!(fe(-1, 17).value, 16);
    assert_eq!(fe(-34, 17).value, 0);
    assert_eq!(fe(-35, 17).value, 16);
    assert_eq!(fe(5, 17).p, 17);
}

#[test]
fn add_sub_mul_reduce_modulo_p() {
    assert_eq!(fe(10, 17).add(&fe(9, 17)).unwrap().value, 2);
    assert_eq!(fe(3, 17).sub(&fe(5, 17)).unwrap().value, 15);
    assert_eq!(fe(5, 17).mul(&fe(7, 17)).unwrap().value, 1);
}

#[test]
fn mul_of_large_residues_does_not_overflow() {
    let p: u64 = 18446744073709551557; // the largest prime below 2^64
    let a = FieldElement { value: p - 1, p };
    // (-1) * (-1) == 1
    assert_eq!(a.mul(&a).unwrap().value, 1);
    assert_eq!(a.add(&a).unwrap().value, p - 2);
}

#[test]
fn mismatched_moduli_are_rejected() {
    assert_eq!(fe(1, 17).add(&fe(1, 19)), Err(ArithError::FieldMismatch));
    assert_eq!(fe(1, 17).sub(&fe(1, 19)), Err(ArithError::FieldMismatch));
    assert_eq!(fe(1, 17).mul(&fe(1, 19)), Err(ArithError::FieldMismatch));
    assert_eq!(fe(1, 17).div(&fe(1, 19)), Err(ArithError::FieldMismatch));
}

#[test]
fn ring_laws_on_values() {
    let (a, b, c) = (fe(13, 17), fe(11, 17), fe(6, 17));
    assert_eq!(a.add(&b).unwrap(), b.add(&a).unwrap());
    assert_eq!(a.mul(&b).unwrap(), b.mul(&a).unwrap());
    assert_eq!(
        a.add(&b).unwrap().add(&c).unwrap(),
        a.add(&b.add(&c).unwrap()).unwrap()
    );
    assert_eq!(
        a.mul(&b).unwrap().mul(&c).unwrap(),
        a.mul(&b.mul(&c).unwrap()).unwrap()
    );
    assert_eq!(
        a.mul(&b.add(&c).unwrap()).unwrap(),
        a.mul(&b).unwrap().add(&a.mul(&c).unwrap()).unwrap()
    );
}

#[test]
fn inverse_of_nonzero_and_zero() {
    assert_eq!(fe(3, 17).inverse().unwrap().value, 6);
    for v in 1..17 {
        let a = fe(v, 17);
        let inv = a.inverse().unwrap();
        assert_eq!(a.mul(&inv).unwrap().value, 1);
    }
    assert_eq!(fe(0, 17).inverse(), Err(ArithError::NoInverse));
}

#[test]
fn inverse_under_composite_modulus() {
    assert_eq!(fe(4, 10).inverse(), Err(ArithError::NoInverse));
    assert_eq!(fe(3, 10).inverse().unwrap().value, 7);
}

#[test]
fn div_multiplies_by_inverse() {
    assert_eq!(fe(1, 17).div(&fe(3, 17)).unwrap().value, 6);
    assert_eq!(fe(10, 17).div(&fe(5, 17)).unwrap().value, 2);
    assert_eq!(fe(1, 17).div(&fe(0, 17)), Err(ArithError::NoInverse));
}

#[test]
fn pow_is_repeated_multiplication() {
    assert_eq!(fe(3, 17).pow(0).value, 1);
    assert_eq!(fe(0, 17).pow(0).value, 1);
    assert_eq!(fe(3, 17).pow(4).value, 13);
    assert_eq!(fe(2, 17).pow(10).value, 4);
    for e in 0..20u64 {
        let mut acc = fe(1, 17);
        for _ in 0..e {
            acc = acc.mul(&fe(5, 17)).unwrap();
        }
        assert_eq!(fe(5, 17).pow(e), acc);
    }
}

#[test]
fn sqrt_of_residue_and_non_residue() {
    let r = fe(4, 19).sqrt().unwrap().unwrap();
    assert_eq!(r.value, 17);
    assert_eq!(r.mul(&r).unwrap().value, 4);
    let other = fe(19 - r.value as i128, 19);
    assert_eq!(other.mul(&other).unwrap().value, 4);
    assert_eq!(fe(2, 19).sqrt(), Ok(None));
}

#[test]
fn sqrt_needs_modulus_three_mod_four() {
    assert_eq!(fe(4, 17).sqrt(), Err(ArithError::UnsupportedModulus));
}
