use rationals::rational::{Rational, RationalError};

fn make(n: i64, d: i64) -> Rational {
    Rational::new(n, d).unwrap()
}

fn gcd_of(mut a: u64, mut b: u64) -> u64 {
    while b != 0 {
        let t = a % b;
        a = b;
        b = t;
    }
    a
}

fn assert_canonical(q: &Rational) {
    assert!(q.get_denominator() != 0);
    if q.get_numerator() == 0 {
        assert_eq!(q.get_denominator(), 1);
        assert!(!q.sign);
    } else {
        assert_eq!(gcd_of(q.get_numerator(), q.get_denominator()), 1);
    }
}

#[test]
fn construction_yields_lowest_terms_on_a_grid() {
    for n in -24..=24i64 {
        for d in [-18, -12, -7, -4, -1, 1, 2, 3, 5, 9, 16, 21] {
            let q = make(n, d);
            assert_canonical(&q);
            // Cross-multiplication: the value survives the reduction.
            assert_eq!(
                n.unsigned_abs() * q.get_denominator(),
                q.get_numerator() * d.unsigned_abs()
            );
        }
    }
}

#[test]
fn arithmetic_results_stay_in_lowest_terms() {
    for n in [-9, -4, 0, 1, 6, 8i64] {
        for m in [-10, -3, 2, 7i64] {
            let a = make(n, 12);
            let b = make(m, 30);
            assert_canonical(&a.add(b).unwrap());
            assert_canonical(&a.sub(b).unwrap());
            assert_canonical(&a.mul(b).unwrap());
            if m != 0 {
                assert_canonical(&a.div(b).unwrap());
            }
        }
    }
}

#[test]
fn signum_matches_the_product_sign_on_a_grid() {
    for n in -6..=6i64 {
        for d in [-5, -3, -1, 1, 2, 4i64] {
            let q = make(n, d);
            assert_eq!(i64::from(q.signum()), (n * d).signum());
        }
    }
}

#[test]
fn new_rejects_zero_denominator() {
    assert_eq!(Rational::new(5, 0), Err(RationalError::InvalidDenominator));
    assert_eq!(Rational::new(0, 0), Err(RationalError::InvalidDenominator));
    assert_eq!(Rational::new(-17, 0), Err(RationalError::InvalidDenominator));
}

#[test]
fn new_reduces_to_lowest_terms() {
    let q = make(84, 36);
    assert_eq!(q.get_numerator(), 7);
    assert_eq!(q.get_denominator(), 3);
    assert_eq!(q.signum(), 1);
}

#[test]
fn new_derives_sign_from_both_inputs() {
    assert_eq!(make(6, -4).signum(), -1);
    assert_eq!(make(6, -4).get_numerator(), 3);
    assert_eq!(make(6, -4).get_denominator(), 2);
    assert_eq!(make(-6, -4).signum(), 1);
    assert_eq!(make(-6, 4).signum(), -1);
    assert_eq!(make(6, 4).signum(), 1);
}

#[test]
fn new_normalizes_zero() {
    let z = make(0, -7);
    assert_eq!(z.get_numerator(), 0);
    assert_eq!(z.get_denominator(), 1);
    assert_eq!(z.signum(), 0);
    assert!(!z.sign);
}

#[test]
fn new_takes_extreme_magnitudes() {
    let q = make(i64::MIN, 1);
    assert_eq!(q.get_numerator(), 9_223_372_036_854_775_808);
    assert_eq!(q.get_denominator(), 1);
    assert_eq!(q.signum(), -1);
    assert_eq!(make(i64::MIN, i64::MIN), make(1, 1));
}

#[test]
fn signum_is_zero_iff_zero_magnitude() {
    assert_eq!(make(0, 5).signum(), 0);
    assert_eq!(make(2, 3).signum(), 1);
    assert_eq!(make(-2, 3).signum(), -1);
    assert_eq!(make(2, -3).signum(), -1);
    assert_eq!(make(-2, -3).signum(), 1);
}

#[test]
fn add_cross_multiplies_and_reduces() {
    let r = make(2, 3).add(make(5, 7)).unwrap();
    assert_eq!(r, make(29, 21));
    let s = make(1, 2).add(make(-1, 3)).unwrap();
    assert_eq!(s, make(1, 6));
    let t = make(1, 4).add(make(1, 4)).unwrap();
    assert_eq!(t, make(1, 2));
}

#[test]
fn sub_of_cube_and_eighths() {
    let a = make(1, 7 * 7 * 7);
    let b = make(5, 8);
    let r = a.sub(b).unwrap();
    // 1/343 - 5/8 == (8 - 1715) / 2744 == -1707/2744, already in lowest terms.
    assert_eq!(r.signum(), -1);
    assert_eq!(r.get_numerator(), 1707);
    assert_eq!(r.get_denominator(), 2744);
}

#[test]
fn sub_of_self_is_canonical_zero() {
    let a = make(-5, 9);
    let z = a.sub(a).unwrap();
    assert_eq!(z.get_numerator(), 0);
    assert_eq!(z.get_denominator(), 1);
    assert_eq!(z.signum(), 0);
    assert!(!z.sign);
}

#[test]
fn add_then_sub_returns_left_operand() {
    let a = make(5, 6);
    let b = make(7, 10);
    let c = a.add(b).unwrap();
    let r = c.sub(b).unwrap();
    assert_eq!(r, a);
    let d = make(-3, 11);
    assert_eq!(a.add(d).unwrap().sub(d).unwrap(), a);
}

#[test]
fn neg_flips_the_sign_only() {
    let q = make(2, 3).neg();
    assert_eq!(q.signum(), -1);
    assert_eq!(q.get_numerator(), 2);
    assert_eq!(q.get_denominator(), 3);
    assert_eq!(q.neg(), make(2, 3));
    let z = make(0, 4).neg();
    assert_eq!(z.signum(), 0);
}

#[test]
fn mul_multiplies_magnitudes_and_combines_signs() {
    assert_eq!(make(2, 3).mul(make(3, 4)).unwrap(), make(1, 2));
    assert_eq!(make(-2, 3).mul(make(-3, 4)).unwrap(), make(1, 2));
    assert_eq!(make(-2, 3).mul(make(3, 4)).unwrap(), make(-1, 2));
    assert_eq!(make(0, 3).mul(make(-3, 4)).unwrap().signum(), 0);
}

#[test]
fn reciprocal_swaps_magnitudes() {
    let q = make(-3, 4).reciprocal().unwrap();
    assert_eq!(q.get_numerator(), 4);
    assert_eq!(q.get_denominator(), 3);
    assert_eq!(q.signum(), -1);
}

#[test]
fn reciprocal_of_zero_fails() {
    assert_eq!(make(0, 8).reciprocal(), Err(RationalError::DivisionByZero));
}

#[test]
fn mul_by_reciprocal_is_one() {
    let a = make(-3, 4);
    let p = a.mul(a.reciprocal().unwrap()).unwrap();
    assert_eq!(p, make(1, 1));
    let b = make(123, 456);
    assert_eq!(b.mul(b.reciprocal().unwrap()).unwrap(), make(1, 1));
}

#[test]
fn div_multiplies_by_the_reciprocal() {
    assert_eq!(make(1, 2).div(make(3, 4)).unwrap(), make(2, 3));
    let a = make(-7, 5);
    let b = make(2, -9);
    let via_div = a.div(b).unwrap();
    let via_recip = a.mul(b.reciprocal().unwrap()).unwrap();
    assert_eq!(via_div, via_recip);
}

#[test]
fn div_by_zero_fails() {
    let zero = make(0, 3);
    assert_eq!(make(1, 2).div(zero), Err(RationalError::DivisionByZero));
}

#[test]
fn arithmetic_reports_overflow() {
    let big = make(i64::MAX, 1);
    assert_eq!(big.mul(big), Err(RationalError::Overflow));
    let bigger = big.add(big).unwrap();
    assert_eq!(bigger.get_numerator(), u64::MAX - 1);
    assert_eq!(bigger.add(bigger), Err(RationalError::Overflow));
    let tiny = make(1, i64::MAX);
    assert_eq!(tiny.mul(tiny), Err(RationalError::Overflow));
}
