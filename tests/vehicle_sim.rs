use agent_mapping::buildings::Building;
use agent_mapping::geo::{Region, UTMCoordinates};
use agent_mapping::vehicle_sim::{format_time, get_hour, parse_timestamp, Agent};

#[test]
fn parses_timestamps() {
    assert_eq!(parse_timestamp("1@0:59:30"), Some(86400 + 59 * 60 + 30));
    assert_eq!(parse_timestamp("2:48:30"), Some(2 * 3600 + 48 * 60 + 30));
    assert_eq!(parse_timestamp("0:02"), Some(120));
    assert_eq!(parse_timestamp("10@23:00"), Some(10 * 86400 + 23 * 3600));
}

#[test]
fn rejects_malformed_timestamps() {
    assert_eq!(parse_timestamp(""), None);
    assert_eq!(parse_timestamp("12"), None);
    assert_eq!(parse_timestamp("1@12"), None);
    assert_eq!(parse_timestamp("a:02"), None);
    assert_eq!(parse_timestamp("1:02:03:04"), None);
    assert_eq!(parse_timestamp("1@2@3:04"), None);
    assert_eq!(parse_timestamp(":02"), None);
    assert_eq!(parse_timestamp("4294967296:00"), None);
    assert_eq!(parse_timestamp("50000@0:00"), None);
    assert_eq!(parse_timestamp("49710@6:28:15"), Some(u32::MAX));
}

#[test]
fn formats_times() {
    assert_eq!(format_time(0), "0:00");
    assert_eq!(format_time(120), "0:02");
    assert_eq!(format_time(2 * 3600 + 48 * 60 + 30), "2:48:30");
    assert_eq!(format_time(86400 + 59 * 60 + 30), "01@0:59:30");
    assert_eq!(format_time(12 * 86400 + 13 * 3600 + 5), "12@13:00:05");
    assert_eq!(format_time(u32::MAX), "49710@6:28:15");
}

#[test]
fn format_then_parse() {
    for t in [0u32, 59, 60, 3599, 3600, 86399, 86400, 1_000_000, u32::MAX] {
        assert_eq!(parse_timestamp(&format_time(t)), Some(t));
    }
}

#[test]
fn agent_accessors() {
    let a = Agent::new(7, 86400 + 30, UTMCoordinates::new(3, -4));
    assert_eq!(a.id(), 7);
    assert_eq!(a.time(), 86430);
    assert_eq!(a.position(), UTMCoordinates::new(3, -4));
    assert_eq!((a.x(), a.y()), (3, -4));
    assert_eq!(a.formatted_time(), "01@0:00:30");
}

#[test]
fn building_accessors() {
    let b = Building::new(9, 16, UTMCoordinates::new(1, 2), Region::new(3, -1, 4, 0));
    assert_eq!(b.id(), 9);
    assert_eq!(b.area(), 16);
    assert_eq!(b.centroid(), UTMCoordinates::new(1, 2));
    assert_eq!(*b.bbox(), Region::new(3, -1, 4, 0));
}

#[test]
fn hour_buckets() {
    assert_eq!(get_hour(b"7:30:00"), Some(7));
    assert_eq!(get_hour(b"13:00"), Some(13));
    assert_eq!(get_hour(b"1@2:00"), Some(26));
    assert_eq!(get_hour(b"1@"), None);
    assert_eq!(get_hour(b"9"), None);
    assert_eq!(get_hour(b"z9:00"), None);
}
