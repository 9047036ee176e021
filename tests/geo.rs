use agent_mapping::geo::{Region, UTMCoordinates};
use agent_mapping::z_order::ZValue;

#[test]
fn squared_distance() {
    let a = UTMCoordinates::new(1, 1);
    assert_eq!(a.squared_dist(UTMCoordinates::new(10, 0)), 82);
    assert_eq!(a.squared_dist(a), 0);
    let far = UTMCoordinates::new(i32::MIN, i32::MIN).squared_dist(UTMCoordinates::new(i32::MAX, i32::MAX));
    assert_eq!(far, 2 * (u32::MAX as u128) * (u32::MAX as u128));
}

#[test]
fn region_containment() {
    let r = Region::new(10, 0, 20, 5);
    assert!(r.contains(UTMCoordinates::new(0, 5)));
    assert!(r.contains(UTMCoordinates::new(10, 20)));
    assert!(!r.contains(UTMCoordinates::new(11, 6)));
    assert!(!r.contains(UTMCoordinates::new(5, 4)));
}

#[test]
fn region_intersection_is_strict() {
    let r = Region::new(10, 0, 10, 0);
    assert!(r.intersects(&Region::new(15, 5, 15, 5)));
    assert!(!r.intersects(&Region::new(20, 10, 10, 0)));
    assert!(!r.intersects(&Region::new(5, 1, 20, 10)));
}

#[test]
fn region_center_and_corners() {
    let r = Region::from_points(UTMCoordinates::new(10, 7), UTMCoordinates::new(0, -4));
    assert_eq!(r, Region::new(10, 0, 7, -4));
    assert_eq!(r.center(), UTMCoordinates::new(5, 1));
    assert_eq!(Region::new(-1, -4, 0, -3).center(), UTMCoordinates::new(-3, -2));
    assert_eq!(r.southwest(), UTMCoordinates::new(0, -4));
    assert_eq!(r.southeast(), UTMCoordinates::new(10, -4));
    assert_eq!(r.northwest(), UTMCoordinates::new(0, 7));
    assert_eq!(r.northeast(), UTMCoordinates::new(10, 7));
}

#[test]
fn normalize_into_region() {
    let r = Region::new(100, 0, 200, 100);
    let (x, y) = UTMCoordinates::new(50, 150).normalize(&r).unwrap();
    assert_eq!(x.raw(), 2_147_483_647);
    assert_eq!(y.raw(), 2_147_483_647);
    let (x, y) = UTMCoordinates::new(100, 100).normalize(&r).unwrap();
    assert_eq!((x.raw(), y.raw()), (u32::MAX, 0));
    assert!(UTMCoordinates::new(101, 150).normalize(&r).is_none());
    assert!(UTMCoordinates::new(50, 99).normalize(&r).is_none());
}

#[test]
fn z_value_in_region() {
    let r = Region::new(100, 0, 100, 0);
    assert_eq!(UTMCoordinates::new(100, 0).z_value(&r), Some(ZValue::new(u32::MAX, 0)));
    assert_eq!(UTMCoordinates::new(0, 0).z_value(&r), Some(ZValue::from_raw(0)));
    assert_eq!(UTMCoordinates::new(0, 101).z_value(&r), None);
}
