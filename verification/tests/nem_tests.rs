use nemweb_reports::datetime::{Date, DateTime};
use nemweb_reports::decimal::Dec;
use nemweb_reports::nem::{
    calculate_dispatch_average, calculate_predispatch_average, csv_body,
    try_calculate_dispatch_average, try_calculate_predispatch_average, Dispatch, Sensitivity,
};
use nemweb_reports::text::lines;

fn dec(m: i128, s: u32) -> Dec {
    Dec::from_parts(m, s, m < 0).unwrap()
}

fn text(d: &Dec) -> String {
    let mut x = rust_decimal::Decimal::from_i128_with_scale(d.mantissa(), d.scale());
    x.set_sign_negative(d.is_negative());
    x.to_string()
}

fn at(hour: u32) -> DateTime {
    DateTime { date: Date { year: 2024, month: 3, day: 1 }, hour, minute: 0, second: 0, nanosecond: 0 }
}

fn sens(region: &str, hour: u32, base: i128) -> Sensitivity {
    Sensitivity {
        regionid: region.to_string(),
        datetime: at(hour),
        rrpeep1: dec(base + 1, 0),
        rrpeep5: dec(base + 5, 0),
        rrpeep8: dec(base + 8, 0),
        rrpeep12: dec(base + 12, 0),
        rrpeep17: dec(base + 17, 0),
        rrpeep19: dec(base + 19, 0),
        rrpeep29: dec(base + 29, 0),
        rrpeep33: dec(base + 33, 0),
    }
}

#[test]
fn csv_body_drops_the_first_line() {
    assert_eq!(csv_body("C,report\nI,A,B\nD,1,2\r\nD,3,4\n"), "I,A,B\nD,1,2\nD,3,4");
    assert_eq!(csv_body("only"), "");
    assert_eq!(csv_body(""), "");
}

#[test]
fn csv_body_lines_are_the_data_lines() {
    let file = "C,report\nI,A,B\nD,1,2\r\nD,3,4";
    let body = csv_body(file);
    assert_eq!(lines(&body), lines(file)[1..].to_vec());
}

#[test]
fn predispatch_averages() {
    let rows = vec![
        sens("VIC1", 1, 0),
        sens("NSW1", 1, 0),
        sens("NSW1", 1, 10),
        sens("TAS1", 1, 0),
        sens("NSW1", 2, 100),
        sens("VIC1", 2, 100),
        sens("TAS1", 2, 0),
    ];
    let out = calculate_predispatch_average(&rows);
    assert_eq!(out.len(), try_calculate_predispatch_average(&rows).unwrap().len());
    let shown: Vec<(String, String, String, u32)> =
        out.iter().map(|(r, a, b, t)| (r.clone(), text(a), text(b), t.hour)).collect();
    assert_eq!(
        shown,
        vec![
            ("NSW1".to_string(), "6".to_string(), "10".to_string(), 1),
            ("VIC1".to_string(), "8".to_string(), "12".to_string(), 1),
            ("NSW1".to_string(), "101".to_string(), "105".to_string(), 2),
            ("VIC1".to_string(), "108".to_string(), "112".to_string(), 2),
        ]
    );
}

#[test]
fn predispatch_scenario_columns() {
    let rows = vec![sens("QLD1", 1, 0), sens("SA1", 1, 0)];
    let out = calculate_predispatch_average(&rows);
    assert_eq!(out.len(), try_calculate_predispatch_average(&rows).unwrap().len());
    let shown: Vec<(String, String, String)> = out.iter().map(|(r, a, b, _)| (r.clone(), text(a), text(b))).collect();
    assert_eq!(
        shown,
        vec![
            ("QLD1".to_string(), "29".to_string(), "33".to_string()),
            ("SA1".to_string(), "17".to_string(), "19".to_string()),
        ]
    );
}

#[test]
fn predispatch_region_missing_at_a_time() {
    let rows = vec![sens("NSW1", 1, 0), sens("VIC1", 2, 0)];
    assert!(try_calculate_predispatch_average(&rows).is_none());
}

fn disp(region: &str, hour: u32, rrp: i128) -> Dispatch {
    Dispatch { settlementdate: at(hour), regionid: region.to_string(), rrp: dec(rrp, 2) }
}

#[test]
fn dispatch_averages() {
    let rows = vec![disp("SA1", 1, 1000), disp("NSW1", 1, 2000), disp("NSW1", 1, 2001), disp("TAS1", 1, 5)];
    let out = calculate_dispatch_average(&rows);
    assert_eq!(out.len(), try_calculate_dispatch_average(&rows).unwrap().len());
    let shown: Vec<(String, String)> = out.iter().map(|(r, a, _)| (r.clone(), text(a))).collect();
    let avg = |vals: &[i64]| {
        let sum: rust_decimal::Decimal = vals.iter().map(|v| rust_decimal::Decimal::new(*v, 2)).sum();
        (sum / rust_decimal::Decimal::from(vals.len())).round_dp(4).to_string()
    };
    assert_eq!(shown, vec![("NSW1".to_string(), avg(&[2000, 2001])), ("SA1".to_string(), avg(&[1000]))]);
    assert_eq!(shown[0].1, "20.0050");
}

#[test]
fn dispatch_region_with_two_marks_gives_two_rows() {
    let rows = vec![disp("NSWSA", 1, 100)];
    let out = calculate_dispatch_average(&rows);
    assert_eq!(out.len(), try_calculate_dispatch_average(&rows).unwrap().len());
    assert_eq!(out.len(), 2);
}

#[test]
fn dispatch_region_missing_at_a_time() {
    let rows = vec![disp("NSW1", 1, 1), disp("QLD1", 2, 1)];
    assert!(try_calculate_dispatch_average(&rows).is_none());
}
