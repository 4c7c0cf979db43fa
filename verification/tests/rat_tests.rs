use gage_rr::rat::Rat;

#[test]
fn rat_add_exact() {
    let a = Rat::new(1, 2);
    let b = Rat::new(1, 3);
    let c = a.add(&b).expect("within range");
    assert!(c.eq_rat(&Rat::new(5, 6)));
    assert_eq!(c.num(), 5);
    assert_eq!(c.den(), 6);
}

#[test]
fn rat_sub_exact() {
    let a = Rat::new(1, 2);
    let b = Rat::new(1, 3);
    let c = a.sub(&b).expect("within range");
    assert!(c.eq_rat(&Rat::new(1, 6)));
}

#[test]
fn rat_mul_reduces() {
    let a = Rat::new(2, 3);
    let b = Rat::new(3, 4);
    let c = a.mul(&b).expect("within range");
    assert_eq!(c.num(), 1);
    assert_eq!(c.den(), 2);
}

#[test]
fn rat_div_negative_divisor() {
    let a = Rat::new(1, 2);
    let b = Rat::new(-3, 4);
    let c = a.div(&b).expect("within range");
    assert_eq!(c.num(), -2);
    assert_eq!(c.den(), 3);
}

#[test]
fn rat_eq_rat_ignores_representation() {
    assert!(Rat::new(2, 4).eq_rat(&Rat::new(1, 2)));
    assert!(!Rat::new(2, 4).eq_rat(&Rat::new(2, 3)));
}

#[test]
fn rat_zero_and_sign() {
    assert!(Rat::zero().is_zero());
    assert!(!Rat::zero().is_negative());
    assert!(Rat::new(-1, 2).is_negative());
    assert!(!Rat::new(1, 2).is_negative());
    assert!(Rat::from_int(7).eq_rat(&Rat::new(7, 1)));
}

#[test]
fn rat_add_overflow_is_none() {
    let a = Rat::new(i64::MAX, 1);
    let b = Rat::new(1, 1);
    assert!(a.add(&b).is_none());
}
