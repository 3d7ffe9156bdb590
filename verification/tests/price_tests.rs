use nemweb_reports::decimal::Dec;
use nemweb_reports::price::{
    calculate_average, combined_list_of_files, from_line_037, parse_row_037, try_calculate_average,
    try_combined_list_of_files,
};

fn text(d: &Dec) -> String {
    let mut x = rust_decimal::Decimal::from_i128_with_scale(d.mantissa(), d.scale());
    x.set_sign_negative(d.is_negative());
    x.to_string()
}

const HEADER: &str = "demand_type,price,transmission_group_id,schedule_type,transmission_id,gas_date,approval_date,current_date";

fn line(demand: &str, price: &str) -> String {
    format!("{demand},{price},G1,S1,T1,01 Mar 2024,29 Feb 2024 12:00:00,01 Mar 2024 09:00:00")
}

#[test]
fn reads_a_price_row() {
    let row = from_line_037(line("NORMAL", "12.3456"));
    assert_eq!(row.demand_type, "NORMAL");
    assert_eq!(text(&row.price), "12.3456");
    assert_eq!(row.transmission_group_id, "G1");
    assert_eq!(row.schedule_type, "S1");
    assert_eq!(row.transmission_id, "T1");
    assert_eq!((row.gas_date.year, row.gas_date.month, row.gas_date.day), (2024, 3, 1));
    assert_eq!(row.approval_date.hour, 12);
    assert_eq!(row.current_date.hour, 9);
}

#[test]
fn short_or_bad_rows_do_not_read() {
    assert!(parse_row_037("NORMAL,1,G1,S1,T1,01 Mar 2024,29 Feb 2024 12:00:00").is_none());
    assert!(parse_row_037(&line("NORMAL", "x")).is_none());
    assert!(parse_row_037(&line("NORMAL", "1")).is_some());
}

fn files() -> Vec<(String, String)> {
    vec![
        (
            "int037b_a.csv".to_string(),
            format!("{HEADER}\n{}\n{}\n{}\n", line("NORMAL", "1"), line("100%", "2"), line("NORMAL", "2")),
        ),
        ("int037b_b.csv".to_string(), format!("{HEADER}\n{}\n{}\n", line("100%", "4"), line("NORMAL", "3"))),
    ]
}

#[test]
fn rows_carry_their_file_name() {
    let list = combined_list_of_files(files());
    assert_eq!(list.len(), 2);
    assert_eq!(list[0].len(), 3);
    assert_eq!(list[1].len(), 2);
    assert!(list[0].iter().all(|(n, _)| n == "int037b_a.csv"));
    assert_eq!(list[1][0].1.demand_type, "100%");
}

#[test]
fn a_bad_row_stops_the_list() {
    let mut fs = files();
    fs.push(("c".to_string(), format!("{HEADER}\nNORMAL,1\n")));
    assert!(try_combined_list_of_files(fs).is_none());
}

#[test]
fn averages_per_file_and_demand_type() {
    let list = try_combined_list_of_files(files()).unwrap();
    let out = calculate_average(&list);
    assert_eq!(out, try_calculate_average(&list).unwrap());
    let shown: Vec<Vec<(String, String, String)>> = out
        .iter()
        .map(|f| f.iter().map(|(d, a, n)| (d.clone(), text(a), n.clone())).collect())
        .collect();
    assert_eq!(
        shown,
        vec![
            vec![
                ("100%".to_string(), "2".to_string(), "int037b_a.csv".to_string()),
                ("NORMAL".to_string(), "1.50".to_string(), "int037b_a.csv".to_string()),
            ],
            vec![
                ("100%".to_string(), "4".to_string(), "int037b_b.csv".to_string()),
                ("NORMAL".to_string(), "3".to_string(), "int037b_b.csv".to_string()),
            ],
        ]
    );
}

#[test]
fn a_demand_type_missing_from_a_file_stops_the_report() {
    let mut fs = files();
    fs.push(("int037b_c.csv".to_string(), format!("{HEADER}\n{}\n", line("NORMAL", "3"))));
    let list = combined_list_of_files(fs);
    assert!(try_calculate_average(&list).is_none());
}

#[test]
fn an_empty_file_stops_the_report_when_there_are_rows() {
    let mut fs = files();
    fs.push(("int037b_c.csv".to_string(), HEADER.to_string()));
    let list = combined_list_of_files(fs);
    assert!(try_calculate_average(&list).is_none());
}

#[test]
fn no_rows_at_all_gives_empty_tables() {
    let fs = vec![("a".to_string(), HEADER.to_string()), ("b".to_string(), String::new())];
    let list = combined_list_of_files(fs);
    let out = try_calculate_average(&list).unwrap();
    assert_eq!(out.len(), 2);
    assert!(out.iter().all(|f| f.is_empty()));
}

#[test]
fn every_file_lists_the_same_demand_types() {
    let fs = vec![
        ("x".to_string(), format!("{HEADER}\n{}\n{}\n", line("Z", "1"), line("A", "2"))),
        ("y".to_string(), format!("{HEADER}\n{}\n{}\n{}\n", line("A", "3"), line("M", "4"), line("Z", "5"))),
        ("z".to_string(), format!("{HEADER}\n{}\n{}\n", line("M", "6"), line("A", "7"))),
    ];
    let list = combined_list_of_files(fs);
    // "M" has no row in file x, and "Z" none in file z: the report is not defined
    assert!(try_calculate_average(&list).is_none());
    let fs = vec![
        ("x".to_string(), format!("{HEADER}\n{}\n{}\n", line("Z", "1"), line("A", "2"))),
        ("y".to_string(), format!("{HEADER}\n{}\n{}\n", line("A", "3"), line("Z", "5"))),
    ];
    let out = try_calculate_average(&combined_list_of_files(fs)).unwrap();
    let types: Vec<Vec<String>> =
        out.iter().map(|f| f.iter().map(|(d, _, _)| d.clone()).collect()).collect();
    assert_eq!(types, vec![vec!["A".to_string(), "Z".to_string()]; 2]);
}
