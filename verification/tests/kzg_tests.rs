use kzg_commit::domain::EvaluationDomain;
use kzg_commit::evalform::KZGEvalFormProver;
use kzg_commit::field::{field_add, field_inv, field_mul, field_pow, FIELD_MODULUS, TWO_INV};
use kzg_commit::kzg::{setup, KZGError, KZGProver, KZGVerifier};
use kzg_commit::poly::Polynomial;

#[test]
fn it_works() {
    assert_eq!(2 + 2, 4);
}

#[test]
fn field_arithmetic_exact() {
    assert_eq!(field_add(FIELD_MODULUS - 1, 1), 0);
    assert_eq!(field_mul(2, TWO_INV), 1);
    assert_eq!(field_inv(2), Some(TWO_INV));
    assert_eq!(field_inv(0), None);
    assert_eq!(field_pow(3, 4), 81);
    assert_eq!(field_pow(FIELD_MODULUS - 1, 2), 1);
}

#[test]
fn toy_scenario_commit_witness_verify() {
    // p(X) = 3 + 2X over the toy instantiation, secret 5, max degree 1
    let params = setup(5, 1);
    let mut prover = KZGProver::new(params);
    let p = Polynomial::new_from_coeffs(vec![3, 2], 1);
    let c = prover.commit(p);
    // the commitment is p evaluated in the exponent: 3 + 2 * 5 = 13
    assert_eq!(c.0.v, 13);
    let w = prover.create_witness((1, 5)).unwrap();
    // the quotient of (p - 5) by (X - 1) is the constant 2
    assert_eq!(w.0.v, 2);
    let verifier = KZGVerifier::new(setup(5, 1));
    assert!(verifier.verify_eval((1, 5), c, w));
    // a wrong claimed value is rejected by the pairing check
    assert!(!verifier.verify_eval((1, 6), c, w));
}

#[test]
fn toy_scenario_wrong_value_fails() {
    let params = setup(5, 1);
    let mut prover = KZGProver::new(params);
    let p = Polynomial::new_from_coeffs(vec![3, 2], 1);
    let _c = prover.commit(p);
    match prover.create_witness((1, 6)) {
        Err(KZGError::PointNotOnPolynomial) => {}
        other => panic!("expected PointNotOnPolynomial, got {:?}", other),
    }
}

#[test]
fn uncommitted_prover_fails_with_no_polynomial() {
    let params = setup(7, 2);
    let mut prover = KZGProver::new(params);
    match prover.open() {
        Err(KZGError::NoPolynomial) => {}
        other => panic!("expected NoPolynomial, got {:?}", other),
    }
    match prover.create_witness((1, 2)) {
        Err(KZGError::NoPolynomial) => {}
        other => panic!("expected NoPolynomial, got {:?}", other),
    }
}

#[test]
fn open_returns_committed_polynomial() {
    let params = setup(11, 3);
    let mut prover = KZGProver::new(params);
    let p = Polynomial::new_from_coeffs(vec![4, 0, 9, 1], 3);
    prover.commit(p);
    let back = prover.open().unwrap();
    assert_eq!(back.coeffs, vec![4, 0, 9, 1]);
    assert_eq!(back.degree, 3);
}

#[test]
fn commitment_is_deterministic() {
    let mut prover1 = KZGProver::new(setup(42, 3));
    let mut prover2 = KZGProver::new(setup(42, 3));
    let p1 = Polynomial::new_from_coeffs(vec![5, 6, 7, 8], 3);
    let p2 = Polynomial::new_from_coeffs(vec![5, 6, 7, 8], 3);
    let c1 = prover1.commit(p1);
    let c2 = prover2.commit(p2);
    assert_eq!(c1, c2);
    // a polynomial differing in one coefficient commits differently here
    let q = Polynomial::new_from_coeffs(vec![5, 6, 7, 9], 3);
    let cq = prover1.commit(q);
    assert_ne!(c1, cq);
}

#[test]
fn verify_poly_accepts_committed_and_rejects_other() {
    let mut prover = KZGProver::new(setup(23, 2));
    let p = Polynomial::new_from_coeffs(vec![1, 2, 3], 2);
    let c = prover.commit(p);
    let verifier = KZGVerifier::new(setup(23, 2));
    let same = Polynomial::new_from_coeffs(vec![1, 2, 3], 2);
    let other = Polynomial::new_from_coeffs(vec![1, 2, 4], 2);
    assert!(verifier.verify_poly(c, &same));
    assert!(!verifier.verify_poly(c, &other));
}

#[test]
fn witness_verifies_at_many_points() {
    let mut prover = KZGProver::new(setup(1234567, 4));
    let verifier = KZGVerifier::new(setup(1234567, 4));
    let p = Polynomial::new_from_coeffs(vec![9, 0, 5, 3, 1], 4);
    let c = prover.commit(p);
    for x in [0u64, 1, 2, 77, 1000003] {
        let probe = Polynomial::new_from_coeffs(vec![9, 0, 5, 3, 1], 4);
        let y = probe.eval(x);
        let w = prover.create_witness((x, y)).unwrap();
        assert!(verifier.verify_eval((x, y), c, w));
        let wrong = if y + 1 < FIELD_MODULUS { y + 1 } else { 0 };
        assert!(!verifier.verify_eval((x, wrong), c, w));
    }
}

#[test]
fn horner_evaluation_exact() {
    let p = Polynomial::new_from_coeffs(vec![3, 2], 1);
    assert_eq!(p.eval(7), 17);
    let q = Polynomial::new_from_coeffs(vec![1, 1, 1], 2);
    // 1 + 10 + 100
    assert_eq!(q.eval(10), 111);
    // evaluation reduces modulo the field prime
    let r = Polynomial::new_from_coeffs(vec![FIELD_MODULUS - 1, 1], 1);
    assert_eq!(r.eval(1), 0);
}

#[test]
fn long_division_exact_and_remainder() {
    // (X^2 - 1) / (X - 1) = X + 1 exactly
    let p = Polynomial::new_from_coeffs(vec![FIELD_MODULUS - 1, 0, 1], 2);
    let d = Polynomial::new_from_coeffs(vec![FIELD_MODULUS - 1, 1], 1);
    let (q, rem) = p.long_division(&d);
    assert!(rem.is_none());
    assert_eq!(q.coeffs[0], 1);
    assert_eq!(q.coeffs[1], 1);
    // (X^2) / (X - 1) leaves remainder 1
    let p2 = Polynomial::new_from_coeffs(vec![0, 0, 1], 2);
    let (q2, rem2) = p2.long_division(&d);
    assert_eq!(q2.coeffs[1], 1);
    let r2 = rem2.unwrap();
    assert_eq!(r2.coeffs[0], 1);
}

#[test]
fn domain_size_two_exact_values() {
    // for a domain of two points the root is -1, so the transform of [a, b]
    // is [a + b, a - b]
    let d = EvaluationDomain::from_coeffs(vec![3, 5]).unwrap();
    assert_eq!(d.omega, FIELD_MODULUS - 1);
    assert_eq!(d.vals, vec![8, FIELD_MODULUS - 2]);
}

#[test]
fn fft_round_trip_size_four() {
    let d = EvaluationDomain::from_coeffs(vec![1, 2, 3, 4]).unwrap();
    assert_eq!(d.vals.len(), 4);
    assert_eq!(d.to_coeffs(), vec![1, 2, 3, 4]);
}

#[test]
fn fft_round_trip_pads_to_power_of_two() {
    let d = EvaluationDomain::from_coeffs(vec![10, 20, 30]).unwrap();
    assert_eq!(d.vals.len(), 4);
    assert_eq!(d.to_coeffs(), vec![10, 20, 30, 0]);
}

#[test]
fn fft_round_trip_size_eight() {
    let coeffs = vec![17, 0, 5, 999999999, 1, 2013265920, 42, 7];
    let d = EvaluationDomain::from_coeffs(coeffs.clone()).unwrap();
    assert_eq!(d.to_coeffs(), coeffs);
}

#[test]
fn domain_values_are_evaluations() {
    // the k-th domain value is the polynomial evaluated at omega^k
    let d = EvaluationDomain::from_coeffs(vec![1, 2, 3, 4]).unwrap();
    let p = Polynomial::new_from_coeffs(vec![1, 2, 3, 4], 3);
    let mut x: u64 = 1;
    for k in 0..4 {
        assert_eq!(d.vals[k], p.eval(x));
        x = ((x as u128 * d.omega as u128) % FIELD_MODULUS as u128) as u64;
    }
}

#[test]
fn cross_form_commitments_agree() {
    // committing coefficients against the monomial basis and committing the
    // evaluations against the Lagrange basis give the same group element
    let d = EvaluationDomain::from_coeffs(vec![3, 2, 0, 0]).unwrap();
    let mut coeff_prover = KZGProver::new(setup(999983, 3));
    let p = Polynomial::new_from_coeffs(vec![3, 2, 0, 0], 1);
    let c1 = coeff_prover.commit(p);
    let mut eval_prover = KZGEvalFormProver::new(setup(999983, 3), &d).unwrap();
    let c2 = eval_prover.commit(&d);
    assert_eq!(c1, c2);
}

#[test]
fn eval_form_witness_verifies() {
    let d = EvaluationDomain::from_coeffs(vec![12, 34, 56, 78]).unwrap();
    let mut eval_prover = KZGEvalFormProver::new(setup(31337, 3), &d).unwrap();
    let c = eval_prover.commit(&d);
    let verifier = KZGVerifier::new(setup(31337, 3));
    let mut x: u64 = 1;
    for k in 0..4 {
        let w = eval_prover.create_witness(&d, k).unwrap();
        assert!(verifier.verify_eval((x, d.vals[k]), c, w));
        x = ((x as u128 * d.omega as u128) % FIELD_MODULUS as u128) as u64;
    }
}

#[test]
fn eval_form_uncommitted_fails_with_no_polynomial() {
    let d = EvaluationDomain::from_coeffs(vec![1, 2]).unwrap();
    let mut eval_prover = KZGEvalFormProver::new(setup(5, 1), &d).unwrap();
    match eval_prover.create_witness(&d, 0) {
        Err(KZGError::NoPolynomial) => {}
        other => panic!("expected NoPolynomial, got {:?}", other),
    }
}

#[test]
fn eval_form_rejects_oversized_domain() {
    let d = EvaluationDomain::from_coeffs(vec![1, 2, 3, 4]).unwrap();
    // parameters for max degree 1 support domains of at most two points
    match KZGEvalFormProver::new(setup(5, 1), &d) {
        Err(KZGError::DomainTooLarge) => {}
        other => panic!("expected DomainTooLarge, got {:?}", other.map(|_| ())),
    }
}
