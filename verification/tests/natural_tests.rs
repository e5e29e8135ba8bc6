use distributed_fs::natural::Natural;

fn same(a: &Natural, b: &Natural) -> bool {
    !a.less_than(b) && !b.less_than(a)
}

#[test]
fn zero_is_zero() {
    assert!(Natural::from_u64(0).is_zero());
    assert!(!Natural::from_u64(1).is_zero());
    assert!(Natural::from_u64(7).times_u64(0).is_zero());
    assert!(Natural::from_u64(0).times_u128(u128::MAX).is_zero());
    assert!(Natural::from_u64(9).minus(&Natural::from_u64(9)).unwrap().is_zero());
    assert!(Natural::from_u64(8).minus(&Natural::from_u64(9)).is_none());
}

#[test]
fn numbers_are_ordered_by_value() {
    let small = Natural::from_u64(u64::MAX);
    let large = Natural::from_u64(1).times_u128(1 << 64);
    assert!(small.less_than(&large));
    assert!(!large.less_than(&small));
    assert!(!small.less_than(&small));
    assert!(same(&small.plus(&Natural::from_u64(1)), &large));
    assert!(same(&large.minus(&Natural::from_u64(1)).unwrap(), &small));
    assert!(small.minus(&large).is_none());
}

#[test]
fn products_grow_past_the_machine_integers() {
    let mut power = Natural::from_u64(1);
    for _ in 0..5 {
        power = power.times_u128(u128::MAX);
    }
    let mut other = Natural::from_u64(1);
    for _ in 0..5 {
        other = other.times_u64(u64::MAX).times_u64(u64::MAX).plus(
            &other.times_u64(u64::MAX).times_u64(2),
        );
    }
    assert!(same(&power, &other));
    assert!(power.less_than(&power.plus(&Natural::from_u64(1))));
    assert!(same(&power.plus(&other).minus(&other).unwrap(), &power));
}

#[test]
fn quotients_are_rounded_down() {
    let seven = Natural::from_u64(7);
    assert_eq!(Natural::from_u64(0).quotient(&seven), Some(0));
    assert_eq!(Natural::from_u64(6).quotient(&seven), Some(0));
    assert_eq!(Natural::from_u64(7).quotient(&seven), Some(1));
    assert_eq!(Natural::from_u64(u64::MAX).quotient(&Natural::from_u64(1)), Some(u64::MAX));
    assert_eq!(seven.quotient(&Natural::from_u64(0)), None);
    let big = Natural::from_u64(3).times_u128(u128::MAX);
    let divisor = Natural::from_u64(1).times_u128(u128::MAX);
    assert_eq!(big.quotient(&divisor), Some(3));
    let less_one = divisor.minus(&Natural::from_u64(1)).unwrap();
    assert_eq!(big.plus(&less_one).quotient(&divisor), Some(3));
    assert_eq!(big.plus(&divisor).quotient(&divisor), Some(4));
    assert_eq!(divisor.quotient(&Natural::from_u64(1)), None);
    assert_eq!(Natural::from_u64(1).times_u128(1 << 64).quotient(&Natural::from_u64(1)), None);
}
