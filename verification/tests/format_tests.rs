use egg_viz::decode::{parse_u64, split_bytes};
use egg_viz::rows::{header_line, parse_row_line, parse_rows, row_line, u64_to_string, Row};

#[test]
fn split_bytes_keeps_every_piece() {
    let split = |s: &str| -> Vec<Vec<u8>> { split_bytes(s.as_bytes(), b',') };
    assert_eq!(split("a,b,c"), vec![b"a".to_vec(), b"b".to_vec(), b"c".to_vec()]);
    assert_eq!(split(""), vec![b"".to_vec()]);
    assert_eq!(split(",a,"), vec![b"".to_vec(), b"a".to_vec(), b"".to_vec()]);
}

#[test]
fn parse_u64_accepts_what_str_parse_accepts() {
    assert_eq!(parse_u64(b"0"), Some(0));
    assert_eq!(parse_u64(b"42"), Some(42));
    assert_eq!(parse_u64(b"+42"), Some(42));
    assert_eq!(parse_u64(b"18446744073709551615"), Some(u64::MAX));
    assert_eq!(parse_u64(b"18446744073709551616"), None);
    assert_eq!(parse_u64(b"99999999999999999999999"), None);
    assert_eq!(parse_u64(b""), None);
    assert_eq!(parse_u64(b"+"), None);
    assert_eq!(parse_u64(b"-1"), None);
    assert_eq!(parse_u64(b"1a"), None);
    assert_eq!(parse_u64(b" 1"), None);
}

#[test]
fn a_well_formed_line_parses_to_its_fields() {
    let row = parse_row_line(b"run1,7,commute,a*b => b*a,before_rewrite,cost,12").unwrap();
    assert_eq!(row.id, "run1");
    assert_eq!(row.iteration, 7);
    assert_eq!(row.rule_name, "commute");
    assert_eq!(row.rule, "a*b => b*a");
    assert_eq!(row.when, "before_rewrite");
    assert_eq!(row.name, "cost");
    assert_eq!(row.value, "12");
}

#[test]
fn carriage_returns_and_unicode_fields_are_handled() {
    let row = parse_row_line("r\u{00e9}sum\u{00e9},1,rn,rl,w,n,v\r".as_bytes()).unwrap();
    assert_eq!(row.id, "r\u{00e9}sum\u{00e9}");
    assert_eq!(row.iteration, 1);
    assert_eq!(row.value, "v");
}

#[test]
fn malformed_lines_are_rejected() {
    // wrong field count
    assert!(parse_row_line(b"a,1,b,c,d,e").is_none());
    assert!(parse_row_line(b"a,1,b,c,d,e,f,g").is_none());
    // the iteration is not a number
    assert!(parse_row_line(b"a,x,b,c,d,e,f").is_none());
    // a field is not valid UTF-8
    assert!(parse_row_line(b"a,1,b,c,d,e,\xff").is_none());
    assert!(parse_row_line(b"").is_none());
}

#[test]
fn parse_rows_keeps_file_order_and_skips_bad_lines() {
    let content = b"a,1,r,l,w,n,v\nbroken\nb,2,r,l,w,n,v\n";
    let rows = parse_rows(content);
    assert_eq!(rows.len(), 2);
    assert_eq!(rows[0].id, "a");
    assert_eq!(rows[0].iteration, 1);
    assert_eq!(rows[1].id, "b");
    assert_eq!(rows[1].iteration, 2);
}

#[test]
fn a_final_unterminated_line_is_still_a_record() {
    let rows = parse_rows(b"a,1,r,l,w,n,v\nb,2,r,l,w,n,v");
    assert_eq!(rows.len(), 2);
    assert_eq!(rows[1].iteration, 2);
}

#[test]
fn numbers_print_in_decimal() {
    assert_eq!(u64_to_string(0), "0");
    assert_eq!(u64_to_string(7), "7");
    assert_eq!(u64_to_string(1234), "1234");
    assert_eq!(u64_to_string(u64::MAX), "18446744073709551615");
}

#[test]
fn a_row_prints_as_the_line_it_parses_from() {
    let row = Row {
        id: "run1".to_string(),
        iteration: 7,
        rule_name: "commute".to_string(),
        rule: "a*b => b*a".to_string(),
        when: "before_rewrite".to_string(),
        name: "cost".to_string(),
        value: "12".to_string(),
    };
    let lined = row_line(&row);
    assert_eq!(lined, "run1,7,commute,a*b => b*a,before_rewrite,cost,12");
    let back = parse_row_line(lined.as_bytes()).unwrap();
    assert_eq!(back.id, row.id);
    assert_eq!(back.iteration, row.iteration);
    assert_eq!(back.rule, row.rule);
    assert_eq!(back.value, row.value);
}

#[test]
fn the_header_line_names_the_schema() {
    assert_eq!(header_line(), "id,iteration,rule_name,rule,when,name,value");
}
