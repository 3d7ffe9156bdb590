use nemweb_reports::text::{
    contains_text, get_data_by_column, has_field, join_with_newlines, lines, parse_u16,
};

#[test]
fn field_in_middle() {
    assert_eq!(get_data_by_column("10,01 Mar 2024,abc", 1), "01 Mar 2024");
}

#[test]
fn first_and_last_fields() {
    assert_eq!(get_data_by_column("a,b,c", 0), "a");
    assert_eq!(get_data_by_column("a,b,c", 2), "c");
}

#[test]
fn empty_fields() {
    assert_eq!(get_data_by_column(",,x", 0), "");
    assert_eq!(get_data_by_column("a,", 1), "");
    assert_eq!(get_data_by_column("", 0), "");
}

#[test]
fn fields_match_std_split() {
    let line = "PRICE,12.5,GRP,SCHED,TRANS,01 Mar 2024,x,y";
    for (i, f) in line.split(',').enumerate() {
        assert_eq!(get_data_by_column(line, i), f);
    }
}

#[test]
fn field_presence() {
    assert!(has_field("a,b,c", 2));
    assert!(!has_field("a,b,c", 3));
    assert!(has_field("", 0));
    assert!(!has_field("", 1));
}

#[test]
fn lines_like_std() {
    let cases = ["", "a", "a\n", "a\nb", "a\r\nb\r\n", "a\n\nb", "x\r", "\n", "a\r\r\nb", "\r\n"];
    for text in cases {
        let expected: Vec<String> = text.lines().map(|l| l.to_string()).collect();
        assert_eq!(lines(text), expected, "text {:?}", text);
    }
}

#[test]
fn lines_keep_lone_carriage_return_at_end() {
    assert_eq!(lines("a\nb\r"), vec!["a".to_string(), "b\r".to_string()]);
}

#[test]
fn substring_search() {
    assert!(contains_text("PUBLIC_INT271_2024.CSV".to_lowercase().as_str(), "int271"));
    assert!(contains_text("abc", ""));
    assert!(contains_text("NSW1", "NSW"));
    assert!(!contains_text("TAS1", "SA"));
    assert!(!contains_text("ab", "abc"));
    assert!(contains_text("aab", "ab"));
}

#[test]
fn join_lines_with_line_feed() {
    let ls = vec!["a".to_string(), "".to_string(), "c".to_string()];
    assert_eq!(join_with_newlines(&ls), "a\n\nc");
    assert_eq!(join_with_newlines(&Vec::new()), "");
}

#[test]
fn u16_parsing_like_std() {
    let cases = ["0", "12", "+12", "65535", "65536", "", "+", "-1", "1a", " 1", "007", "-0", "99999999999"];
    for text in cases {
        assert_eq!(parse_u16(text), text.parse::<u16>().ok(), "text {:?}", text);
    }
}

#[test]
fn u16_parsing_values() {
    assert_eq!(parse_u16("+10"), Some(10));
    assert_eq!(parse_u16("65535"), Some(65535));
    assert_eq!(parse_u16("65536"), None);
}

#[test]
fn fields_joined_by_commas_give_the_line() {
    for line in ["a,b,,c", "", ",", "x", "1,2,3,"] {
        let n = line.split(',').count();
        let fields: Vec<&str> = (0..n).map(|i| get_data_by_column(line, i)).collect();
        assert!(!has_field(line, n));
        assert_eq!(fields.join(","), line);
    }
}
