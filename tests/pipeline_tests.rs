use arith_pipeline::circuit::build_cubic_circuit;
use arith_pipeline::error::ArithError;
use arith_pipeline::field::FieldElement;
use arith_pipeline::protocol::{check_divisibility, compose, vanishing_polynomial};
use arith_pipeline::qap::Qap;
use arith_pipeline::r1cs::{is_satisfied, ConstraintSystem, LinearCombination, Variable};

fn fe(v: i128) -> FieldElement {
    FieldElement::new(v, 17)
}

/// The circuit `v1 = x·x; v2 = v1·x; y = v2 + 5` with `x = 3` over 17.
fn cubic_system() -> (ConstraintSystem, Variable) {
    let mut cs = ConstraintSystem::new();
    cs.init_one(fe(1));
    let x = cs.alloc_variable();
    cs.assign(x, fe(3)).unwrap();
    let v1 = cs.mul(x, x).unwrap();
    let v2 = cs.mul(v1, x).unwrap();
    let y = cs.add_const(v2, fe(5)).unwrap();
    (cs, y)
}

fn coefficient(lc: &LinearCombination, var: usize) -> u64 {
    lc.terms
        .iter()
        .filter(|(v, _)| v.0 == var)
        .map(|(_, c)| c.value)
        .sum::<u64>()
        % 17
}

fn values(ws: &[FieldElement]) -> Vec<u64> {
    ws.iter().map(|w| w.value).collect()
}

#[test]
fn cubic_witness() {
    let (cs, y) = cubic_system();
    let w = cs.generate_witness().unwrap();
    assert_eq!(values(&w), vec![1, 3, 9, 10, 15]);
    assert_eq!(y, Variable(4));
}

#[test]
fn cubic_constraint_count() {
    let (cs, _) = cubic_system();
    assert_eq!(cs.constraints.len(), 3);
}

#[test]
fn cubic_witness_satisfies() {
    let (cs, _) = cubic_system();
    let w = cs.generate_witness().unwrap();
    assert!(is_satisfied(&cs, &w));
}

#[test]
fn builder_function_matches_gate_calls() {
    let mut cs = ConstraintSystem::new();
    cs.init_one(fe(1));
    let y = build_cubic_circuit(&mut cs, fe(3), fe(5)).unwrap();
    assert_eq!(y, Variable(4));
    assert_eq!(values(&cs.generate_witness().unwrap()), vec![1, 3, 9, 10, 15]);
    assert_eq!(cs.constraints.len(), 3);
}

#[test]
fn qap_reproduces_matrix_coefficients() {
    let (cs, _) = cubic_system();
    let qap = Qap::from_r1cs(&cs).unwrap();
    assert_eq!(qap.a_polys.len(), 5);
    assert_eq!(qap.b_polys.len(), 5);
    assert_eq!(qap.c_polys.len(), 5);
    for i in 0..5 {
        for (k, c) in cs.constraints.iter().enumerate() {
            let x = fe(k as i128);
            assert_eq!(qap.a_polys[i].evaluate(&x).value, coefficient(&c.a, i));
            assert_eq!(qap.b_polys[i].evaluate(&x).value, coefficient(&c.b, i));
            assert_eq!(qap.c_polys[i].evaluate(&x).value, coefficient(&c.c, i));
        }
    }
}

#[test]
fn valid_witness_divides_with_zero_remainder() {
    let (cs, _) = cubic_system();
    let w = cs.generate_witness().unwrap();
    let qap = Qap::from_r1cs(&cs).unwrap();
    assert!(check_divisibility(&qap, &w, cs.constraints.len()));
    let a = compose(&qap.a_polys, &w);
    let b = compose(&qap.b_polys, &w);
    let c = compose(&qap.c_polys, &w);
    let p = a.mul(&b).sub(&c);
    let z = vanishing_polynomial(3, 17);
    let (_h, r) = p.div_rem(&z).unwrap();
    assert!(r.coefficients.iter().all(|c| c.value == 0));
}

#[test]
fn tampered_witness_leaves_remainder() {
    let (cs, _) = cubic_system();
    let mut w = cs.generate_witness().unwrap();
    let qap = Qap::from_r1cs(&cs).unwrap();
    w[4] = fe(999);
    assert!(!is_satisfied(&cs, &w));
    assert!(!check_divisibility(&qap, &w, cs.constraints.len()));
    for slot in 1..5 {
        let mut w = cs.generate_witness().unwrap();
        w[slot] = w[slot].add(&fe(1)).unwrap();
        assert!(!check_divisibility(&qap, &w, cs.constraints.len()));
    }
}

#[test]
fn vanishing_polynomial_is_monic_and_vanishes() {
    let z = vanishing_polynomial(3, 17);
    // x(x-1)(x-2) = x^3 - 3x^2 + 2x
    assert_eq!(values(&z.coefficients), vec![0, 2, 14, 1]);
    for k in 0..3 {
        assert_eq!(z.evaluate(&fe(k)).value, 0);
    }
    assert_eq!(z.evaluate(&fe(3)).value, 6);
}

#[test]
fn add_gate_folds_equal_operands() {
    let mut cs = ConstraintSystem::new();
    cs.init_one(fe(1));
    let x = cs.alloc_variable();
    cs.assign(x, fe(8)).unwrap();
    let s = cs.add(x, x).unwrap();
    let w = cs.generate_witness().unwrap();
    assert_eq!(w[s.0].value, 16);
    assert_eq!(cs.constraints[0].a.terms.len(), 1);
    assert_eq!(cs.constraints[0].a.terms[0].1.value, 2);
    assert!(is_satisfied(&cs, &w));
}

#[test]
fn add_term_merges_duplicates() {
    let mut lc = LinearCombination::new();
    lc.add_term(Variable(1), fe(3));
    lc.add_term(Variable(2), fe(4));
    lc.add_term(Variable(1), fe(16));
    assert_eq!(lc.terms.len(), 2);
    assert_eq!(lc.terms[0].1.value, 2);
}

#[test]
fn gate_errors() {
    let mut cs = ConstraintSystem::new();
    assert_eq!(cs.assign(Variable(0), fe(1)), Err(ArithError::UnknownVariable));
    cs.init_one(fe(1));
    let x = cs.alloc_variable();
    assert_eq!(cs.mul(x, Variable(7)), Err(ArithError::UnknownVariable));
    assert_eq!(cs.mul(x, x), Err(ArithError::UnassignedVariable));
    assert_eq!(cs.generate_witness(), Err(ArithError::UnassignedVariable));
    cs.assign(x, FieldElement::new(3, 19)).unwrap();
    assert_eq!(cs.add(x, x), Err(ArithError::FieldMismatch));
    cs.assign(x, fe(3)).unwrap();
    assert_eq!(cs.add_const(x, FieldElement::new(1, 19)), Err(ArithError::FieldMismatch));
    assert_eq!(cs.constraints.len(), 0);
    assert_eq!(cs.next_var_index, 2);
}

#[test]
fn qap_needs_constant_slot() {
    let cs = ConstraintSystem::new();
    assert!(matches!(Qap::from_r1cs(&cs), Err(ArithError::UnassignedVariable)));
}
