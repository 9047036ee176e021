use std::cmp::Ordering;

use agent_mapping::unit_fixed::UnitFixedPoint;
use agent_mapping::z_order::{interleave_8, ZValue, X_MASK, Y_MASK};
use quickcheck::QuickCheck;

#[test]
fn interleave_examples() {
    assert_eq!(ZValue::new(0xFFFF_FFFF, 0).0, 0x5555_5555_5555_5555);
    assert_eq!(ZValue::new(0, 0xFFFF_FFFF).0, 0xAAAA_AAAA_AAAA_AAAA);
    assert_eq!(ZValue::new(1, 1).0, 3);
    assert_eq!(ZValue::new(0, 0).0, 0);
    assert_eq!(ZValue::new(2, 0).0, 4);
    assert_eq!(ZValue::new(0, 2).0, 8);
    assert_eq!(ZValue::new(0x8000_0000, 0).0, 0x4000_0000_0000_0000);
    assert_eq!(ZValue::new(0, 0x8000_0000).0, 0x8000_0000_0000_0000);
}

#[test]
fn interleave_8_examples() {
    assert_eq!(interleave_8(0xFF, 0), 0x5555);
    assert_eq!(interleave_8(0, 0xFF), 0xAAAA);
    assert_eq!(interleave_8(0b101, 0b011), 0b01_10_11);
    assert_eq!(interleave_8(0xFF, 0xFF), 0xFFFF);
}

#[test]
fn from_fp_and_raw() {
    let z = ZValue::from_fp(UnitFixedPoint::from_raw(0xFFFF_FFFF), UnitFixedPoint::from_raw(0));
    assert_eq!(z, ZValue::new(0xFFFF_FFFF, 0));
    assert_eq!(ZValue::from_raw(42).0, 42);
}

#[test]
fn axis_bits() {
    let z = ZValue::new(0x1234_5678, 0x9ABC_DEF0);
    assert_eq!(z.x_bits(), z.0 & X_MASK);
    assert_eq!(z.y_bits(), z.0 & Y_MASK);
    assert_eq!(z.x_bits() | z.y_bits(), z.0);
    assert_eq!(ZValue::new(0x1234_5678, 0).0, z.x_bits());
}

#[test]
fn axis_comparisons() {
    let a = ZValue::new(3, 100);
    let b = ZValue::new(5, 1);
    assert_eq!(a.cmp_x(b), Ordering::Less);
    assert_eq!(b.cmp_x(a), Ordering::Greater);
    assert_eq!(a.cmp_y(b), Ordering::Greater);
    assert_eq!(a.cmp_x(ZValue::new(3, 7)), Ordering::Equal);
}

fn axis_agreement(x1: u32, y1: u32, x2: u32, y2: u32) -> bool {
    let z1 = ZValue::new(x1, y1);
    let z2 = ZValue::new(x2, y2);
    z1.cmp_x(z2) == x1.cmp(&x2)
        && z1.x_bits().cmp(&z2.x_bits()) == x1.cmp(&x2)
        && z1.cmp_y(z2) == y1.cmp(&y2)
        && z1.y_bits().cmp(&z2.y_bits()) == y1.cmp(&y2)
}

#[test]
fn axis_agreement_random() {
    QuickCheck::new()
        .tests(2000)
        .quickcheck(axis_agreement as fn(u32, u32, u32, u32) -> bool);
    assert!(axis_agreement(7, 0, 7, 0xFFFF_FFFF));
}

fn discriminator(x1: u32, y1: u32, x2: u32, y2: u32) -> bool {
    let z1 = ZValue::new(x1, y1);
    let z2 = ZValue::new(x2, y2);
    let mx = x1 ^ x2;
    let my = y1 ^ y2;
    let expected = if mx.leading_zeros() < my.leading_zeros() {
        x1.cmp(&x2)
    } else {
        y1.cmp(&y2)
    };
    z1.0.cmp(&z2.0) == expected
}

#[test]
fn discriminator_random() {
    QuickCheck::new()
        .tests(2000)
        .quickcheck(discriminator as fn(u32, u32, u32, u32) -> bool);
    // x differs in bit 3, y in bit 1: x decides
    assert!(ZValue::new(8, 3).0 > ZValue::new(0, 0).0);
    assert!(discriminator(8, 3, 0, 0));
    // same height: y decides
    assert!(ZValue::new(4, 0).0 < ZValue::new(0, 4).0);
    assert!(discriminator(4, 0, 0, 4));
}
