use ip_check::{find_ip_range, look_up, IpRange};

fn two_range_table() -> Vec<IpRange> {
    vec![
        IpRange {
            start: 1000,
            end: 2000,
            country: String::from("US"),
            region: String::from("CA"),
            city: String::from("LA"),
        },
        IpRange {
            start: 2001,
            end: 3000,
            country: String::from("US"),
            region: String::from("NY"),
            city: String::from("NYC"),
        },
    ]
}

#[test]
fn finds_interior_addresses() {
    let table = two_range_table();
    assert_eq!(find_ip_range(1500, &table).unwrap().city, "LA");
    assert_eq!(find_ip_range(2500, &table).unwrap().city, "NYC");
}

#[test]
fn misses_outside_addresses() {
    let table = two_range_table();
    assert!(find_ip_range(999, &table).is_none());
    assert!(find_ip_range(3001, &table).is_none());
}

#[test]
fn bounds_are_inclusive() {
    let table = two_range_table();
    assert_eq!(find_ip_range(1000, &table).unwrap().city, "LA");
    assert_eq!(find_ip_range(2000, &table).unwrap().city, "LA");
    assert_eq!(find_ip_range(2001, &table).unwrap().city, "NYC");
    assert_eq!(find_ip_range(3000, &table).unwrap().city, "NYC");
}

#[test]
fn empty_table_never_matches() {
    let table: Vec<IpRange> = Vec::new();
    assert!(find_ip_range(0, &table).is_none());
    assert!(find_ip_range(16777217, &table).is_none());
    assert!(find_ip_range(4294967295, &table).is_none());
}

#[test]
fn found_record_is_an_owned_copy() {
    let table = two_range_table();
    let found = find_ip_range(1500, &table).unwrap();
    drop(table);
    assert_eq!(found.start, 1000);
    assert_eq!(found.end, 2000);
    assert_eq!(found.country, "US");
}

#[test]
fn end_to_end_single_record() {
    let data = "16777216,16777471,AU,,Queensland,Brisbane,extra";
    let found = look_up("1.0.0.1", data).unwrap();
    assert_eq!(found.country, "AU");
    assert_eq!(found.region, "Queensland");
    assert_eq!(found.city, "Brisbane");
}

#[test]
fn look_up_is_idempotent() {
    let data = "1000,2000,US,,CA,LA\n2001,3000,US,,NY,NYC\n";
    let first = look_up("0.0.5.220", data);
    let second = look_up("0.0.5.220", data);
    let a = first.unwrap();
    let b = second.unwrap();
    assert_eq!(a.start, b.start);
    assert_eq!(a.end, b.end);
    assert_eq!(a.country, b.country);
    assert_eq!(a.region, b.region);
    assert_eq!(a.city, b.city);

    let miss_once = look_up("9.9.9.9", data);
    let miss_again = look_up("9.9.9.9", data);
    assert!(miss_once.is_none());
    assert!(miss_again.is_none());
}

#[test]
fn look_up_collapses_bad_address_to_no_match() {
    let data = "1000,2000,US,,CA,LA";
    assert!(look_up("not-an-address", data).is_none());
    assert!(look_up("1.2.3.256", data).is_none());
}

#[test]
fn look_up_collapses_bad_dataset_to_no_match() {
    assert!(look_up("1.0.0.1", "bad,record,US,,CA").is_none());
    assert!(look_up("1.0.0.1", "abc,100,US,,CA,LA").is_none());
}

#[test]
fn look_up_reports_a_genuine_miss() {
    let data = "1000,2000,US,,CA,LA";
    assert!(look_up("255.255.255.255", data).is_none());
    assert!(look_up("1.0.0.1", "").is_none());
}
