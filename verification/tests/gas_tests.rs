use nemweb_reports::datetime::{Date, DateTime};
use nemweb_reports::decimal::Dec;
use nemweb_reports::gas::{
    calculate_totals_by_network_time, calculate_totals_bynetwork, from_line, parse_row_271,
    rows_271, try_calculate_totals_by_network_time, try_calculate_totals_bynetwork,
    NetworkAndMonthYear,
};

const FILE: &str = "network_id,nsl_update,gas_date,ti,nsl_gj,current_date\n\
10,01 Mar 2024 06:00:00,01 Mar 2024,1,100.5,02 Mar 2024 10:00:00\n\
20,01 Mar 2024 06:00:00,01 Mar 2024,1,50,02 Mar 2024 10:00:00\n\
10,01 Apr 2024 06:00:00,01 Apr 2024,2,200.25,02 Apr 2024 10:00:00\n\
10,02 Mar 2024 06:00:00,02 Mar 2024,1,0.5,02 Mar 2024 10:00:00\n";

fn text(d: &Dec) -> String {
    let mut x = rust_decimal::Decimal::from_i128_with_scale(d.mantissa(), d.scale());
    x.set_sign_negative(d.is_negative());
    x.to_string()
}

#[test]
fn reads_a_row() {
    let row = from_line("10,01 Mar 2024 06:30:15,02 Mar 2024,3,123.45,03 Mar 2024 10:00:00".to_string());
    assert_eq!(row.network_id, 10);
    assert_eq!(row._ti, 3);
    assert_eq!(text(&row.nsl_gj), "123.45");
    assert_eq!(row._gas_date, Date { year: 2024, month: 3, day: 2 });
    assert_eq!(
        row._nsl_update,
        DateTime { date: Date { year: 2024, month: 3, day: 1 }, hour: 6, minute: 30, second: 15, nanosecond: 0 }
    );
    assert_eq!(row.network_month_and_year, NetworkAndMonthYear(10, 3, 2024));
}

#[test]
fn rows_that_do_not_read() {
    assert!(parse_row_271("10,01 Mar 2024 06:00:00,01 Mar 2024,1,100.5").is_none());
    assert!(parse_row_271("10,01 Mar 2024 06:00:00,31 Feb 2024,1,100.5,02 Mar 2024 10:00:00").is_none());
    assert!(parse_row_271("70000,01 Mar 2024 06:00:00,01 Mar 2024,1,100.5,02 Mar 2024 10:00:00").is_none());
    assert!(parse_row_271("10,01 Mar 2024 06:00:00,01 Mar 2024,1,abc,02 Mar 2024 10:00:00").is_none());
    assert!(parse_row_271("10,01 Mar 2024 06:00:00,01 Mar 2024,1,1.5,02 Mar 2024 10:00:00").is_some());
}

#[test]
fn header_is_skipped() {
    assert_eq!(rows_271(FILE).unwrap().len(), 4);
    assert_eq!(rows_271("header only").unwrap().len(), 0);
    assert_eq!(rows_271("").unwrap().len(), 0);
}

#[test]
fn totals_by_network() {
    let totals = calculate_totals_bynetwork(FILE);
    assert_eq!(try_calculate_totals_bynetwork(FILE).unwrap(), totals);
    let shown: Vec<(u16, String)> = totals.iter().map(|(n, t)| (*n, text(t))).collect();
    assert_eq!(shown, vec![(10, "301".to_string()), (20, "50".to_string())]);
}

#[test]
fn totals_by_network_and_month() {
    let totals = calculate_totals_by_network_time(FILE);
    assert_eq!(try_calculate_totals_by_network_time(FILE).unwrap(), totals);
    let shown: Vec<(NetworkAndMonthYear, String)> = totals.iter().map(|(k, t)| (*k, text(t))).collect();
    assert_eq!(
        shown,
        vec![
            (NetworkAndMonthYear(10, 3, 2024), "101".to_string()),
            (NetworkAndMonthYear(10, 4, 2024), "200".to_string()),
            (NetworkAndMonthYear(20, 3, 2024), "50".to_string()),
        ]
    );
}

#[test]
fn both_tables_list_the_same_networks() {
    let by_network = calculate_totals_bynetwork(FILE);
    let by_month = calculate_totals_by_network_time(FILE);
    let mut from_months: Vec<u16> = by_month.iter().map(|(k, _)| k.0).collect();
    from_months.dedup();
    let networks: Vec<u16> = by_network.iter().map(|(n, _)| *n).collect();
    assert_eq!(networks, from_months);
}

#[test]
fn a_bad_line_stops_the_report() {
    let file = format!("{}{}", FILE, "30,bad date,01 Mar 2024,1,5,02 Mar 2024 10:00:00\n");
    assert!(try_calculate_totals_bynetwork(&file).is_none());
    assert!(try_calculate_totals_by_network_time(&file).is_none());
}

#[test]
fn an_overflowing_total_stops_the_report() {
    let big = "79228162514264337593543950335";
    let file = format!(
        "h\n1,01 Mar 2024 06:00:00,01 Mar 2024,1,{big},02 Mar 2024 10:00:00\n1,01 Mar 2024 06:00:00,01 Mar 2024,1,{big},02 Mar 2024 10:00:00\n"
    );
    assert!(try_calculate_totals_bynetwork(&file).is_none());
}

#[test]
fn totals_round_halves_to_even() {
    let file = "h\n5,01 Mar 2024 06:00:00,01 Mar 2024,1,2.5,02 Mar 2024 10:00:00\n6,01 Mar 2024 06:00:00,01 Mar 2024,1,3.5,02 Mar 2024 10:00:00";
    let totals = calculate_totals_bynetwork(file);
    assert_eq!(text(&totals[0].1), "2");
    assert_eq!(text(&totals[1].1), "4");
}
