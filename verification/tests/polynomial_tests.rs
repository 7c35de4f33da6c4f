use resistor_grid::polynomial::{Polynomial, PolynomialDegree};

#[test]
fn polynomial_test_fmt() {
    let poly = Polynomial::<i64>::new(vec![1, 2, 3, 4]);

    assert_eq!(poly.to_string(), "P[(4)x^3 + (3)x^2 + (2)x + (1)]");
}

#[test]
fn polynomial_test_add() {
    let poly1 = Polynomial::<i64>::new(vec![1, 10]);
    let poly2 = Polynomial::<i64>::new(vec![2, 20]);
    let poly3 = Polynomial::<i64>::new(vec![0, -20]);

    let sum1 = poly1.add(&poly2);
    let sum2 = poly2.add(&poly3);

    assert_eq!(poly1.to_string(), "P[(10)x + (1)]");
    assert_eq!(poly2.to_string(), "P[(20)x + (2)]");
    assert_eq!(poly3.to_string(), "P[(-20)x]");
    assert_eq!(sum1.to_string(), "P[(30)x + (3)]");
    assert_eq!(sum2.to_string(), "P[(2)]");
}

#[test]
fn test_mul() {
    let poly1 = Polynomial::<i64>::new(vec![1, 10]);
    let poly2 = Polynomial::<i64>::new(vec![2, 20]);
    let poly3 = Polynomial::<i64>::new(vec![0]);

    let mul1 = poly1.mul(&poly2);
    let mul2 = poly1.mul(&poly3);

    assert_eq!(poly1.to_string(), "P[(10)x + (1)]");
    assert_eq!(poly2.to_string(), "P[(20)x + (2)]");
    assert_eq!(poly3.to_string(), "P[]");
    assert_eq!(mul1.to_string(), "P[(200)x^2 + (40)x + (2)]");
    assert_eq!(mul2.to_string(), "P[(0)]");
}

#[test]
fn test_add_assign() {
    let mut poly1 = Polynomial::<i64>::new(vec![2, 20]);
    let poly2 = Polynomial::<i64>::new(vec![1, -10]);
    poly1.add_assign(&poly2);

    assert_eq!(poly1.to_string(), "P[(10)x + (3)]");
    assert_eq!(poly2.to_string(), "P[(-10)x + (1)]");

    poly1.add_assign(&poly2);
    assert_eq!(poly1.to_string(), "P[(4)]");
}

#[test]
fn test_div_assign() {
    let mut p1 = Polynomial::<i64>::new(vec![-1, 0, 1]);
    let p2 = Polynomial::<i64>::new(vec![1, 1]);
    p1.div_assign(&p2).unwrap();

    // the quotient of (x^2 - 1) / (x + 1) is x - 1: coefficients [-1, 1]
    assert_eq!(p1.to_string(), "P[(1)x + (-1)]");
    assert_eq!(p2.to_string(), "P[(1)x + (1)]");
}

#[test]
fn test_degree_sentinel() {
    let zero = Polynomial::<i64>::default();
    assert_eq!(zero.degree(), PolynomialDegree::NegativeInfinity);
    assert_eq!(zero.to_string(), "P[(0)]");

    let p = Polynomial::<i64>::new(vec![7]);
    assert_eq!(p.degree(), PolynomialDegree::FiniteValue(0));

    let q = Polynomial::<i64>::new(vec![0, 0, 5]);
    assert_eq!(q.degree(), PolynomialDegree::FiniteValue(2));
}

#[test]
fn test_add_commutes() {
    let p = Polynomial::<i64>::new(vec![3, 0, 7]);
    let q = Polynomial::<i64>::new(vec![-3, 5]);
    let pq = p.add(&q);
    let qp = q.add(&p);
    assert_eq!(pq.to_string(), qp.to_string());
    assert_eq!(pq.to_string(), "P[(7)x^2 + (5)x]");
}

#[test]
fn test_mul_degree_law() {
    // degrees 2 and 3 multiply to degree 5
    let p = Polynomial::<i64>::new(vec![1, 0, 2]);
    let q = Polynomial::<i64>::new(vec![5, 0, 0, 3]);
    let r = p.mul(&q);
    assert_eq!(r.degree(), PolynomialDegree::FiniteValue(5));

    // either operand zero gives the zero polynomial
    let z = Polynomial::<i64>::default();
    assert_eq!(p.mul(&z).degree(), PolynomialDegree::NegativeInfinity);
    assert_eq!(z.mul(&q).degree(), PolynomialDegree::NegativeInfinity);
}

#[test]
fn test_sub_cancels_add() {
    let p = Polynomial::<i64>::new(vec![4, -2, 9]);
    let q = Polynomial::<i64>::new(vec![1, 1, 1, 1]);
    let mut s = p.add(&q);
    s.sub_assign(&q);
    assert_eq!(s.to_string(), p.to_string());
}

#[test]
fn test_div_by_zero_polynomial() {
    let mut p = Polynomial::<i64>::new(vec![1, 2, 3]);
    let z = Polynomial::<i64>::default();
    let r = p.div_assign(&z);
    assert_eq!(r, Err(resistor_grid::errors::GridError::DivisionByZero));
    assert_eq!(p.to_string(), "P[(3)x^2 + (2)x + (1)]");
}

#[test]
fn test_deep_copy_is_independent() {
    let mut p = Polynomial::<i64>::new(vec![1, 2]);
    let q = p.clone_poly();
    p.add_assign(&Polynomial::<i64>::new(vec![10]));
    assert_eq!(p.to_string(), "P[(2)x + (11)]");
    assert_eq!(q.to_string(), "P[(2)x + (1)]");
}

#[test]
fn test_nested_polynomial_arithmetic() {
    // polynomials whose coefficients are themselves polynomials
    let c0 = Polynomial::<i64>::new(vec![1, 1]);
    let c1 = Polynomial::<i64>::new(vec![2]);
    let d0 = Polynomial::<i64>::new(vec![0, 3]);
    let p = Polynomial::<Polynomial<i64>>::new(vec![c0, c1]);
    let q = Polynomial::<Polynomial<i64>>::new(vec![d0]);
    let s = p.add(&q);
    assert_eq!(s.to_string(), "P[(P[(2)])x + (P[(4)x + (1)])]");
    let m = p.mul(&q);
    assert_eq!(m.to_string(), "P[(P[(6)x])x + (P[(3)x^2 + (3)x])]");
}
