use nemweb_reports::datetime::{Date, DateTime};
use nemweb_reports::order::sorted_distinct;

#[test]
fn strings_sorted_and_distinct() {
    let keys: Vec<String> = ["VIC1", "NSW1", "VIC1", "", "NSW", "Ä", "b"].iter().map(|s| s.to_string()).collect();
    let mut expected = keys.clone();
    expected.sort();
    expected.dedup();
    assert_eq!(sorted_distinct(&keys), expected);
}

#[test]
fn numbers_sorted_and_distinct() {
    let keys: Vec<u16> = vec![5, 3, 5, 65535, 0, 3];
    assert_eq!(sorted_distinct(&keys), vec![0, 3, 5, 65535]);
}

#[test]
fn times_in_chronological_order() {
    let t = |y: i32, mo: u32, d: u32, h: u32, s: u32| DateTime { date: Date { year: y, month: mo, day: d }, hour: h, minute: 0, second: s, nanosecond: 0 };
    let keys = vec![t(2024, 3, 1, 5, 0), t(2023, 12, 31, 23, 59), t(2024, 3, 1, 5, 0), t(2024, 3, 1, 4, 30), t(2024, 2, 29, 6, 0)];
    let out = sorted_distinct(&keys);
    assert_eq!(out, vec![t(2023, 12, 31, 23, 59), t(2024, 2, 29, 6, 0), t(2024, 3, 1, 4, 30), t(2024, 3, 1, 5, 0)]);
}
