use plan_canon::parse::parse_plan_line_exec;
use plan_canon::parse::parse_row_exec;

#[test]
fn plan_line_exact_values() {
    let line = b"[0, 7, 65535]".to_vec();
    assert_eq!(parse_plan_line_exec(&line), Some(vec![0, 7, 65535]));
}

#[test]
fn plan_line_rejects_trailing_text() {
    let line = b"[1,2] tail".to_vec();
    assert_eq!(parse_plan_line_exec(&line), None);
}

#[test]
fn plan_line_rejects_missing_bracket() {
    assert_eq!(parse_plan_line_exec(&b"1,2,3".to_vec()), None);
    assert_eq!(parse_plan_line_exec(&b"[1,2".to_vec()), None);
    assert_eq!(parse_plan_line_exec(&b"".to_vec()), None);
}

#[test]
fn plan_line_rejects_empty_item() {
    assert_eq!(parse_plan_line_exec(&b"[1,,2]".to_vec()), None);
    assert_eq!(parse_plan_line_exec(&b"[1,2,]".to_vec()), None);
}

#[test]
fn row_values_drop_first_field() {
    let row = b"17,3,1,4".to_vec();
    assert_eq!(parse_row_exec(&row), Ok(vec![3, 1, 4]));
}

#[test]
fn row_reports_first_bad_field() {
    let row = b"1,2,whoops,4,alsobad".to_vec();
    assert_eq!(parse_row_exec(&row), Err(b"whoops".to_vec()));
}

#[test]
fn row_rejects_out_of_range_field() {
    let row = b"1,2,65536".to_vec();
    assert_eq!(parse_row_exec(&row), Err(b"65536".to_vec()));
}

#[test]
fn row_rejects_inner_whitespace() {
    let row = b"1, 2".to_vec();
    assert_eq!(parse_row_exec(&row), Err(b" 2".to_vec()));
}
