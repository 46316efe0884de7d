use ip_check::ip_to_decimal;

#[test]
fn converts_low_address() {
    assert_eq!(ip_to_decimal("1.0.0.1").unwrap(), 16777217);
}

#[test]
fn converts_mixed_address() {
    assert_eq!(
        ip_to_decimal("155.4.99.146").unwrap(),
        155 * 16777216 + 4 * 65536 + 99 * 256 + 146
    );
}

#[test]
fn converts_all_zero_address() {
    assert_eq!(ip_to_decimal("0.0.0.0").unwrap(), 0);
}

#[test]
fn converts_all_ones_address() {
    assert_eq!(ip_to_decimal("255.255.255.255").unwrap(), 4294967295);
}

#[test]
fn converts_boundary_octets() {
    assert_eq!(
        ip_to_decimal("1.22.104.13").unwrap(),
        1 * 16777216 + 22 * 65536 + 104 * 256 + 13
    );
}

#[test]
fn rejects_too_few_octets() {
    assert!(ip_to_decimal("1.2.3").is_err());
}

#[test]
fn rejects_too_many_octets() {
    assert!(ip_to_decimal("1.2.3.4.5").is_err());
}

#[test]
fn rejects_octet_out_of_range() {
    assert!(ip_to_decimal("1.2.3.256").is_err());
    assert!(ip_to_decimal("1.2.3.1000").is_err());
}

#[test]
fn rejects_non_numeric_octet() {
    assert!(ip_to_decimal("abc.1.1.1").is_err());
}

#[test]
fn rejects_empty_text() {
    assert!(ip_to_decimal("").is_err());
}

#[test]
fn rejects_empty_octet() {
    assert!(ip_to_decimal("1.2.3.").is_err());
    assert!(ip_to_decimal(".1.2.3").is_err());
    assert!(ip_to_decimal("1..2.3").is_err());
}

#[test]
fn rejects_leading_zero_octet() {
    assert!(ip_to_decimal("01.2.3.4").is_err());
}

#[test]
fn rejects_surrounding_garbage() {
    assert!(ip_to_decimal(" 1.2.3.4").is_err());
    assert!(ip_to_decimal("1.2.3.4 ").is_err());
    assert!(ip_to_decimal("1.2.3.4\n").is_err());
    assert!(ip_to_decimal("+1.2.3.4").is_err());
}
