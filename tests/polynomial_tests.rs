use arith_pipeline::error::ArithError;
use arith_pipeline::field::FieldElement;
use arith_pipeline::polynomial::Polynomial;

fn fe(v: i128) -> FieldElement {
    FieldElement::new(v, 17)
}

fn poly(vs: &[i128]) -> Polynomial {
    Polynomial::new(vs.iter().map(|v| fe(*v)).collect())
}

fn values(p: &Polynomial) -> Vec<u64> {
    p.coefficients.iter().map(|c| c.value).collect()
}

#[test]
fn new_trims_trailing_zeros() {
    assert_eq!(values(&poly(&[1, 2, 0, 0])), vec![1, 2]);
    assert_eq!(values(&poly(&[0, 0])), vec![0]);
    assert_eq!(values(&poly(&[])), Vec::<u64>::new());
    assert_eq!(poly(&[1, 2, 0]).degree(), 1);
    assert_eq!(poly(&[]).degree(), 0);
    let raw = Polynomial { coefficients: vec![fe(4), fe(0)] };
    assert_eq!(values(&raw.trim()), vec![4]);
}

#[test]
fn evaluate_uses_horner() {
    // 5x + 1 at 2
    assert_eq!(poly(&[1, 5]).evaluate(&fe(2)).value, 11);
    // 2x^2 + 3x + 4 at 5: 50 + 15 + 4 = 69 = 1 mod 17
    assert_eq!(poly(&[4, 3, 2]).evaluate(&fe(5)).value, 1);
    assert_eq!(poly(&[]).evaluate(&fe(5)).value, 0);
}

#[test]
fn add_sub_mul_and_scale() {
    let a = poly(&[1, 5]);
    let b = poly(&[16, 1]);
    assert_eq!(values(&a.add(&b)), vec![0, 6]);
    assert_eq!(values(&a.sub(&b)), vec![2, 4]);
    assert_eq!(values(&a.sub(&a)), vec![0]);
    assert_eq!(values(&a.mul(&b)), vec![16, 13, 5]);
    assert_eq!(values(&a.scale(fe(3))), vec![3, 15]);
    assert_eq!(values(&a.scale(fe(0))), vec![0]);
    assert_eq!(values(&poly(&[]).add(&a)), vec![1, 5]);
}

#[test]
fn evaluation_respects_sum_and_product() {
    let a = poly(&[3, 0, 7, 1]);
    let b = poly(&[16, 4, 9]);
    for x in 0..17 {
        let x = fe(x);
        let (ea, eb) = (a.evaluate(&x), b.evaluate(&x));
        assert_eq!(a.add(&b).evaluate(&x), ea.add(&eb).unwrap());
        assert_eq!(a.sub(&b).evaluate(&x), ea.sub(&eb).unwrap());
        assert_eq!(a.mul(&b).evaluate(&x), ea.mul(&eb).unwrap());
    }
}

#[test]
fn degree_of_product_is_sum_of_degrees() {
    let a = poly(&[3, 0, 7, 1]);
    let b = poly(&[16, 4, 9]);
    assert_eq!(a.mul(&b).degree(), a.degree() + b.degree());
    assert_eq!(poly(&[1, 5]).mul(&poly(&[16, 1])).degree(), 2);
}

#[test]
fn division_without_remainder() {
    let (q, r) = poly(&[16, 13, 5]).div_rem(&poly(&[16, 1])).unwrap();
    assert_eq!(values(&q), vec![1, 5]);
    assert_eq!(values(&r), vec![0]);
}

#[test]
fn division_with_remainder() {
    // x^2 + 1 = (x - 1)(x + 1) + 2
    let (q, r) = poly(&[1, 0, 1]).div_rem(&poly(&[1, 1])).unwrap();
    assert_eq!(values(&q), vec![16, 1]);
    assert_eq!(values(&r), vec![2]);
    assert_eq!(values(&poly(&[1, 0, 1]).div(&poly(&[1, 1])).unwrap()), vec![16, 1]);
}

#[test]
fn division_round_trip() {
    let dividend = poly(&[5, 11, 0, 3, 8, 1]);
    let divisor = poly(&[2, 7, 4]);
    let (q, r) = dividend.div_rem(&divisor).unwrap();
    assert!(r.degree() < divisor.degree());
    assert_eq!(q.mul(&divisor).add(&r), dividend);
}

#[test]
fn division_by_lower_degree_and_constant() {
    let (q, r) = poly(&[3, 1]).div_rem(&poly(&[1, 2, 3])).unwrap();
    assert_eq!(values(&q), vec![0]);
    assert_eq!(values(&r), vec![3, 1]);
    let (q, r) = poly(&[4, 6]).div_rem(&poly(&[2])).unwrap();
    assert_eq!(values(&q), vec![2, 3]);
    assert_eq!(values(&r), vec![0]);
}

#[test]
fn division_by_zero_polynomial() {
    assert_eq!(poly(&[1, 1]).div_rem(&poly(&[0])), Err(ArithError::ZeroDivisor));
    assert_eq!(poly(&[1, 1]).div(&poly(&[])), Err(ArithError::ZeroDivisor));
}

#[test]
fn lagrange_interpolation_hits_every_point() {
    let ys = vec![fe(1), fe(3), fe(9)];
    let l = Polynomial::lagrange_interpolation(&ys).unwrap();
    assert_eq!(values(&l), vec![1, 0, 2]);
    for (i, y) in ys.iter().enumerate() {
        assert_eq!(l.evaluate(&fe(i as i128)), *y);
    }
    let ys = vec![fe(0), fe(16), fe(0), fe(5), fe(12)];
    let l = Polynomial::lagrange_interpolation(&ys).unwrap();
    assert!(l.coefficients.len() <= ys.len());
    for (i, y) in ys.iter().enumerate() {
        assert_eq!(l.evaluate(&fe(i as i128)), *y);
    }
}

#[test]
fn lagrange_interpolation_edge_cases() {
    assert!(Polynomial::lagrange_interpolation(&vec![]).unwrap().coefficients.is_empty());
    assert_eq!(values(&Polynomial::lagrange_interpolation(&vec![fe(0), fe(0)]).unwrap()), vec![0]);
    // three nodes over Z/2: the denominator 0 - 2 is zero
    let ys = vec![FieldElement::new(1, 2), FieldElement::new(0, 2), FieldElement::new(0, 2)];
    assert_eq!(Polynomial::lagrange_interpolation(&ys), Err(ArithError::NoInverse));
}
