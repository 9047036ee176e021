use agent_mapping::unit_fixed::{UnitFixedPoint, UNIT_MAX};
use quickcheck::{QuickCheck, TestResult};

#[test]
fn clamps_at_the_ends() {
    assert_eq!(UnitFixedPoint::from_ratio(0, 10).raw(), 0);
    assert_eq!(UnitFixedPoint::from_ratio(-5, 10).raw(), 0);
    assert_eq!(UnitFixedPoint::from_ratio(10, 10).raw(), UNIT_MAX);
    assert_eq!(UnitFixedPoint::from_ratio(25, 10).raw(), UNIT_MAX);
}

#[test]
fn rounds_down_in_between() {
    assert_eq!(UnitFixedPoint::from_ratio(1, 2).raw(), 2_147_483_647);
    assert_eq!(UnitFixedPoint::from_ratio(1, 4).raw(), 1_073_741_823);
    assert_eq!(UnitFixedPoint::from_ratio(1, 3).raw(), 1_431_655_765);
    assert_eq!(
        UnitFixedPoint::from_ratio(1, 0x7FFF_FFFF_FFFF_FFFF).raw(),
        0
    );
    assert_eq!(UnitFixedPoint::from_raw(17).raw(), 17);
}

fn monotone(a: i32, b: i32, den: u16) -> TestResult {
    if den == 0 {
        return TestResult::discard();
    }
    let d = den as i64;
    let (lo, hi) = if a <= b { (a, b) } else { (b, a) };
    let f1 = UnitFixedPoint::from_ratio(lo as i64, d);
    let f2 = UnitFixedPoint::from_ratio(hi as i64, d);
    TestResult::from_bool(f1.raw() <= f2.raw())
}

#[test]
fn order_is_kept() {
    QuickCheck::new()
        .tests(2000)
        .quickcheck(monotone as fn(i32, i32, u16) -> TestResult);
    // 1/3 < 1/2 < 2/3, across denominators
    let a = UnitFixedPoint::from_ratio(1, 3).raw();
    let b = UnitFixedPoint::from_ratio(1, 2).raw();
    let c = UnitFixedPoint::from_ratio(2, 3).raw();
    assert!(a <= b && b <= c);
}
