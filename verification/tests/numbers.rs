use lithium::rational::Rational;

fn nri(n: i64) -> Rational {
    Rational::from_int(n)
}

fn nr(n: i64, d: i64) -> Rational {
    Rational::ratio(n, d)
}

#[test]
fn rational_addition_is_exact() {
    let a = nr(1, 3);
    let b = nr(1, 6);
    assert!(a.checked_add(b).unwrap().eq_rat(nr(1, 2)));
    assert!(nri(0).checked_add(nri(0)).unwrap().is_zero());
    // One tenth three times is exactly three tenths.
    let tenth = nr(1, 10);
    let sum = tenth.checked_add(tenth).unwrap().checked_add(tenth).unwrap();
    assert!(sum.eq_rat(nr(3, 10)));
}

#[test]
fn rational_multiplication_and_division() {
    let a = nr(3, 4);
    let b = nr(2, 9);
    assert!(a.checked_mul(b).unwrap().eq_rat(nr(1, 6)));
    assert!(a.checked_div(b).unwrap().eq_rat(nr(27, 8)));
    assert!(a.checked_div(a).unwrap().eq_rat(nri(1)));
    // Dividing by a negative flips the sign while the denominator stays positive.
    let c = nr(1, 2).checked_div(nri(-2)).unwrap();
    assert!(c.eq_rat(nr(-1, 4)));
    assert!(c.is_negative());
}

#[test]
fn rational_subtraction_and_negation() {
    let a = nr(5, 6);
    let b = nr(1, 6);
    assert!(a.checked_sub(b).unwrap().eq_rat(nr(2, 3)));
    assert!(a.neg().checked_add(a).unwrap().is_zero());
}

#[test]
fn rational_order_is_exact() {
    assert!(nr(1, 3).lt(nr(1, 2)));
    assert!(!nr(1, 2).lt(nr(1, 3)));
    assert!(nr(2, 4).le(nr(1, 2)));
    assert!(nr(1, 2).le(nr(2, 4)));
    assert!(nr(2, 4).eq_rat(nr(1, 2)));
    assert!(nri(-1).lt(nri(0)));
}

#[test]
fn rational_overflow_returns_none() {
    let max = nri(i64::MAX);
    assert!(max.checked_add(max).is_none());
    assert!(max.checked_mul(max).is_none());
    // The same magnitudes reduce away when the result stays small.
    assert!(max.checked_div(max).unwrap().eq_rat(nri(1)));
    assert!(max.checked_sub(max).unwrap().is_zero());
}
