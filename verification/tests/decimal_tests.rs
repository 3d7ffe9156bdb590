use nemweb_reports::decimal::{average, round_whole, sum_values, Dec};
use rust_decimal::Decimal;

fn dec(m: i128, s: u32) -> Dec {
    Dec::from_parts(m, s, m < 0).unwrap()
}

fn to_decimal(d: &Dec) -> Decimal {
    let mut x = Decimal::from_i128_with_scale(d.mantissa(), d.scale());
    x.set_sign_negative(d.is_negative());
    x
}

#[test]
fn parts_are_checked() {
    assert!(Dec::from_parts(5, 29, false).is_none());
    assert!(Dec::from_parts(5, 28, true).is_none());
    assert!(Dec::from_parts(-5, 2, false).is_none());
    assert!(Dec::from_parts(0, 2, true).is_some());
    assert!(Dec::from_parts(0x1_0000_0000_0000_0000_0000_0000, 0, false).is_none());
    assert!(Dec::from_parts(0xFFFF_FFFF_FFFF_FFFF_FFFF_FFFF, 0, false).is_some());
}

#[test]
fn count_and_zero() {
    let c = Dec::from_count(7);
    assert_eq!((c.mantissa(), c.scale(), c.is_negative()), (7, 0, false));
    let z = Dec::zero();
    assert_eq!((z.mantissa(), z.scale(), z.is_negative()), (0, 0, false));
}

#[test]
fn sum_matches_rust_decimal() {
    let vals = vec![dec(125, 2), dec(-3, 0), dec(10005, 3)];
    let s = sum_values(&vals).unwrap();
    let expected: Decimal = vals.iter().map(to_decimal).sum();
    assert_eq!(to_decimal(&s), expected);
    assert_eq!(s.scale(), expected.scale());
    assert_eq!(to_decimal(&s).to_string(), "8.255");
}

#[test]
fn empty_sum_is_zero() {
    let s = sum_values(&Vec::new()).unwrap();
    assert_eq!((s.mantissa(), s.scale()), (0, 0));
}

#[test]
fn sum_overflow_is_none() {
    let max = dec(0xFFFF_FFFF_FFFF_FFFF_FFFF_FFFF, 0);
    assert!(sum_values(&vec![max, max]).is_none());
}

#[test]
fn average_of_two() {
    let a = average(&vec![dec(15, 1), dec(25, 1)]).unwrap();
    assert_eq!(to_decimal(&a), Decimal::new(2, 0));
}

#[test]
fn average_rounds_to_four_places() {
    let a = average(&vec![dec(1, 0), dec(1, 0), dec(0, 0)]).unwrap();
    assert_eq!(to_decimal(&a).to_string(), "0.6667");
    let b = average(&vec![dec(1, 0), dec(2, 0), dec(2, 0)]).unwrap();
    assert_eq!(to_decimal(&b).to_string(), "1.6667");
}

#[test]
fn average_of_nothing_is_none() {
    assert!(average(&Vec::new()).is_none());
}

#[test]
fn whole_rounding_halves_to_even() {
    assert_eq!(to_decimal(&round_whole(dec(25, 1))).to_string(), "2");
    assert_eq!(to_decimal(&round_whole(dec(35, 1))).to_string(), "4");
    assert_eq!(to_decimal(&round_whole(dec(-1234567, 3))).to_string(), "-1235");
}
