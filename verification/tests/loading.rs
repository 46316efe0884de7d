use ip_check::read_ip_ranges;

#[test]
fn loads_one_record() {
    let table = read_ip_ranges("16777216,16777471,AU,,Queensland,Brisbane,extra").unwrap();
    assert_eq!(table.len(), 1);
    assert_eq!(table[0].start, 16777216);
    assert_eq!(table[0].end, 16777471);
    assert_eq!(table[0].country, "AU");
    assert_eq!(table[0].region, "Queensland");
    assert_eq!(table[0].city, "Brisbane");
}

#[test]
fn loads_records_in_file_order() {
    let data = "1000,2000,US,,CA,LA\n2001,3000,US,,NY,NYC\n";
    let table = read_ip_ranges(data).unwrap();
    assert_eq!(table.len(), 2);
    assert_eq!(table[0].start, 1000);
    assert_eq!(table[0].city, "LA");
    assert_eq!(table[1].start, 2001);
    assert_eq!(table[1].city, "NYC");
}

#[test]
fn loads_crlf_lines() {
    let data = "1000,2000,US,,CA,LA\r\n2001,3000,US,,NY,NYC\r\n";
    let table = read_ip_ranges(data).unwrap();
    assert_eq!(table.len(), 2);
    assert_eq!(table[1].country, "US");
    assert_eq!(table[1].region, "NY");
}

#[test]
fn skips_empty_lines() {
    let data = "\n1000,2000,US,,CA,LA\n\n2001,3000,US,,NY,NYC";
    let table = read_ip_ranges(data).unwrap();
    assert_eq!(table.len(), 2);
}

#[test]
fn empty_text_is_an_empty_table() {
    let table = read_ip_ranges("").unwrap();
    assert_eq!(table.len(), 0);
}

#[test]
fn rejects_non_numeric_start() {
    assert!(read_ip_ranges("abc,100,US,,CA,LA").is_err());
}

#[test]
fn rejects_non_numeric_end() {
    assert!(read_ip_ranges("100,abc,US,,CA,LA").is_err());
}

#[test]
fn rejects_negative_start() {
    assert!(read_ip_ranges("-1,100,US,,CA,LA").is_err());
}

#[test]
fn rejects_bound_too_large_for_u32() {
    assert!(read_ip_ranges("4294967296,4294967297,US,,CA,LA").is_err());
}

#[test]
fn accepts_largest_u32_bounds() {
    let table = read_ip_ranges("4294967294,4294967295,US,,CA,LA").unwrap();
    assert_eq!(table[0].start, 4294967294);
    assert_eq!(table[0].end, 4294967295);
}

#[test]
fn rejects_too_few_fields() {
    assert!(read_ip_ranges("1000,2000,US,,CA").is_err());
}

#[test]
fn one_bad_record_spoils_the_load() {
    let data = "1000,2000,US,,CA,LA\nbad,3000,US,,NY,NYC\n";
    assert!(read_ip_ranges(data).is_err());
}
