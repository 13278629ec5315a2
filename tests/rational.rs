use std::cmp::Ordering;
use ucalc::rational::{OverflowError, Rational};

fn parts(r: Result<Rational, OverflowError>) -> Result<(i32, u32), OverflowError> {
    r.map(|q| (q.numer(), q.denom()))
}

fn gcd(mut a: u64, mut b: u64) -> u64 {
    while b != 0 {
        let t = a % b;
        a = b;
        b = t;
    }
    a
}

fn assert_reduced(r: &Rational) {
    assert!(r.denom() >= 1);
    assert!(r.numer() != i32::MIN);
    assert_eq!(gcd(r.numer().unsigned_abs() as u64, r.denom() as u64), 1);
}

#[test]
fn test_new_reduce() {
    assert_eq!(Rational::new(i32::MIN, i32::MIN), Rational::new(1, 1));
    assert_eq!(Rational::new(i32::MAX, i32::MAX), Rational::new(1, 1));
    assert_eq!(Rational::new(6, 4), Rational::new(-3, -2));
    assert_eq!(parts(Rational::new(16, 32)), Ok((1, 2)));
}

#[test]
fn test_integer() {
    let nums = [i32::MIN, i32::MAX, -25, -5, -1, 0, 1, 5, 25];
    for &n in nums.iter() {
        assert_eq!(Rational::new(n, 1), Rational::from_integer(n));
        if n != i32::MIN {
            assert!(Rational::from_integer(n).unwrap().is_integer());
        } else {
            assert_eq!(Rational::from_integer(n), Err(OverflowError));
        }
    }
}

#[test]
fn new_moves_sign_to_numerator() {
    assert_eq!(parts(Rational::new(3, -6)), Ok((-1, 2)));
    assert_eq!(parts(Rational::new(-3, -6)), Ok((1, 2)));
    assert_eq!(parts(Rational::new(0, -7)), Ok((0, 1)));
    assert_eq!(parts(Rational::new(i32::MIN, 1)), Err(OverflowError));
    assert_eq!(parts(Rational::new(1, i32::MIN)), Err(OverflowError));
    assert_eq!(parts(Rational::new(2, i32::MIN)), Ok((-1, 1_073_741_824)));
}

#[test]
fn arithmetic_is_exact_and_reduced() {
    let half = Rational::new(1, 2).unwrap();
    let third = Rational::new(1, 3).unwrap();
    assert_eq!(parts(half.add(&half)), Ok((1, 1)));
    assert_eq!(parts(half.add(&third)), Ok((5, 6)));
    assert_eq!(parts(half.sub(&third)), Ok((1, 6)));
    assert_eq!(parts(third.sub(&half)), Ok((-1, 6)));
    assert_eq!(parts(half.mul(&third)), Ok((1, 6)));
    assert_eq!(parts(half.div(&third)), Ok((3, 2)));
    let results = [half.add(&third), half.sub(&third), half.mul(&third), half.div(&third)];
    for r in results.iter() {
        assert_reduced(r.as_ref().unwrap());
    }
}

#[test]
fn overflow_is_reported() {
    let big = Rational::from_integer(i32::MAX).unwrap();
    let one = Rational::from_integer(1).unwrap();
    let zero = Rational::from_integer(0).unwrap();
    assert_eq!(big.add(&one), Err(OverflowError));
    assert_eq!(big.mul(&big), Err(OverflowError));
    assert_eq!(one.div(&zero), Err(OverflowError));
    assert_eq!(zero.recip(), Err(OverflowError));
    // Pre-reduction lets a product whose raw parts overflow succeed.
    let a = Rational::new(65536, 3).unwrap();
    let b = Rational::new(3, 65536).unwrap();
    assert_eq!(parts(a.mul(&b)), Ok((1, 1)));
    let c = Rational::new(1, 65536).unwrap();
    assert_eq!(parts(c.add(&c)), Ok((1, 32768)));
}

#[test]
fn recip_and_neg() {
    let r = Rational::new(-2, 3).unwrap();
    assert_eq!(parts(r.recip()), Ok((-3, 2)));
    assert_eq!((r.neg().numer(), r.neg().denom()), (2, 3));
    assert!(r.is_negative());
    assert!(!r.neg().is_negative());
}

#[test]
fn powers() {
    let two = Rational::from_integer(2).unwrap();
    let r = Rational::new(-2, 3).unwrap();
    assert_eq!(parts(two.pow(10)), Ok((1024, 1)));
    assert_eq!(parts(two.pow(30)), Ok((1_073_741_824, 1)));
    assert_eq!(parts(two.pow(31)), Err(OverflowError));
    assert_eq!(parts(two.pow(-2)), Ok((1, 4)));
    assert_eq!(parts(r.pow(3)), Ok((-8, 27)));
    assert_eq!(parts(r.pow(-3)), Ok((-27, 8)));
    assert_eq!(parts(r.pow(0)), Ok((1, 1)));
    let minus_one = Rational::from_integer(-1).unwrap();
    assert_eq!(parts(minus_one.pow(i32::MIN)), Ok((1, 1)));
    assert_eq!(parts(minus_one.pow(i32::MAX)), Ok((-1, 1)));
    assert_eq!(parts(two.pow(i32::MIN)), Err(OverflowError));
    let zero = Rational::from_integer(0).unwrap();
    assert_eq!(parts(zero.pow(-1)), Err(OverflowError));
    assert_eq!(parts(zero.pow(5)), Ok((0, 1)));
}

#[test]
fn ordering_by_value() {
    let a = Rational::new(1, 3).unwrap();
    let b = Rational::new(1, 2).unwrap();
    let c = Rational::new(-5, 2).unwrap();
    assert_eq!(a.cmp(&b), Ordering::Less);
    assert_eq!(b.cmp(&a), Ordering::Greater);
    assert_eq!(c.cmp(&a), Ordering::Less);
    assert_eq!(a.cmp(&Rational::new(2, 6).unwrap()), Ordering::Equal);
    let big = Rational::new(i32::MAX, 1).unwrap();
    let tiny = Rational::new(1, i32::MAX).unwrap();
    assert_eq!(big.cmp(&tiny), Ordering::Greater);
}
