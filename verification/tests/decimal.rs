use rationals::decimal::Decimal;
use rationals::rational::Rational;

#[test]
fn quarter_terminates() {
    let mut e = Decimal::build(1, 4);
    let (prefix, cycle) = e.get_repeating();
    assert_eq!(prefix, vec![0, 2, 5]);
    assert_eq!(cycle, Vec::<u64>::new());
}

#[test]
fn third_repeats_purely() {
    let mut e = Decimal::build(1, 3);
    let (prefix, cycle) = e.get_repeating();
    assert_eq!(prefix, vec![0]);
    assert_eq!(cycle, vec![3]);
}

#[test]
fn sixth_mixes_prefix_and_cycle() {
    let mut e = Decimal::build(1, 6);
    let (prefix, cycle) = e.get_repeating();
    assert_eq!(prefix, vec![0, 1]);
    assert_eq!(cycle, vec![6]);
}

#[test]
fn ten_thirds_has_whole_part_three() {
    let mut e = Decimal::build(10, 3);
    let (prefix, cycle) = e.get_repeating();
    assert_eq!(prefix, vec![3]);
    assert_eq!(cycle, vec![3]);
}

#[test]
fn twenty_two_sevenths_has_six_digit_cycle() {
    let mut e = Decimal::build(22, 7);
    let (prefix, cycle) = e.get_repeating();
    assert_eq!(prefix, vec![3]);
    assert_eq!(cycle, vec![1, 4, 2, 8, 5, 7]);
}

#[test]
fn digit_steps_stay_within_the_denominator() {
    for d in 1..=50u64 {
        let mut e = Decimal::build(1, d);
        let (prefix, cycle) = e.get_repeating();
        assert!(prefix.len() + cycle.len() <= d as usize);
        assert!(!prefix.is_empty());
    }
}

#[test]
fn zero_numerator_expands_to_zero() {
    let mut e = Decimal::build(0, 5);
    let (prefix, cycle) = e.get_repeating();
    assert_eq!(prefix, vec![0]);
    assert_eq!(cycle, Vec::<u64>::new());
}

#[test]
fn large_whole_part_is_first() {
    let mut e = Decimal::build(123, 4);
    let (prefix, cycle) = e.get_repeating();
    assert_eq!(prefix, vec![30, 7, 5]);
    assert_eq!(cycle, Vec::<u64>::new());
}

#[test]
fn next_yields_quarter_digits_then_zeros() {
    let mut e = Decimal::build(1, 4);
    assert_eq!(e.next(), Some(0));
    assert_eq!(e.next(), Some(2));
    assert_eq!(e.next(), Some(5));
    assert_eq!(e.next(), Some(0));
    assert_eq!(e.next(), Some(0));
}

#[test]
fn next_yields_repeating_thirds() {
    let mut e = Decimal::build(10, 3);
    assert_eq!(e.next(), Some(3));
    assert_eq!(e.next(), Some(3));
    assert_eq!(e.next(), Some(3));
}

#[test]
fn next_agrees_with_get_repeating_on_exact_division() {
    // 4 / 2 == 2.0: the digit is the exact quotient, not one less.
    let mut e = Decimal::build(4, 2);
    assert_eq!(e.next(), Some(2));
    let mut f = Decimal::build(4, 2);
    let (prefix, cycle) = f.get_repeating();
    assert_eq!(prefix, vec![2]);
    assert_eq!(cycle, Vec::<u64>::new());
}

#[test]
fn rational_drives_its_digit_engine() {
    let q = Rational::new(10, 3).unwrap();
    let mut e = q.get_decimal_iterator();
    let (prefix, cycle) = e.get_repeating();
    assert_eq!(prefix, vec![3]);
    assert_eq!(cycle, vec![3]);
    // The engine sees the magnitude: the sign stays with the rational.
    let n = Rational::new(-10, 3).unwrap();
    let mut f = n.get_decimal_iterator();
    let (np, nc) = f.get_repeating();
    assert_eq!(np, vec![3]);
    assert_eq!(nc, vec![3]);
}
