use primeclue::data::importer::{
    get_header_row, parse_forbidden_columns, split_to_vec, ClassRequest, ClassResponse,
};

#[test]
fn split_rows_and_fields() {
    let content = "a,b,c\r\n1,2,3\n\n4,5,6\n";
    let rows = split_to_vec(content, ",", false);
    assert_eq!(rows, vec![vec!["a", "b", "c"], vec!["1", "2", "3"], vec!["4", "5", "6"]]);
    let rows = split_to_vec(content, ",", true);
    assert_eq!(rows, vec![vec!["1", "2", "3"], vec!["4", "5", "6"]]);
}

#[test]
fn split_multi_char_separator() {
    let rows = split_to_vec("1::2::3\n4::5", "::", false);
    assert_eq!(rows, vec![vec!["1", "2", "3"], vec!["4", "5"]]);
}

#[test]
fn header_row() {
    let content = "name,age\n1,2\n";
    let header = get_header_row(content, ",", true, vec!["extra".to_owned()]);
    assert_eq!(header, vec!["name".to_owned(), "age".to_owned(), "extra".to_owned()]);
    let header = get_header_row(content, ",", false, vec![]);
    assert_eq!(header, vec![String::new(), String::new()]);
}

#[test]
fn simple_request() {
    let content = "1.0,3.0,false\r\n2.0,1.0,true\r\n".to_owned();
    let r = ClassRequest::simple_csv_request("some data", content.clone(), false);
    assert_eq!(r.content, content);
    assert_eq!(r.expression, "");
    assert_eq!(r.class_column, 3);
    assert_eq!(r.separator, ",");
    assert_eq!(r.rows_per_set, 1);
    assert_eq!(r.import_columns, vec![true, true, false]);
    assert_eq!(r.data_name, "some data");
    assert!(!r.custom_reward_penalty_columns);
}

#[test]
fn forbidden_columns() {
    let cols = parse_forbidden_columns("1 3  7 ").unwrap();
    assert_eq!(cols, vec![0, 2, 6]);
    assert!(parse_forbidden_columns("0").is_err());
    assert!(parse_forbidden_columns("2 x").is_err());
    assert_eq!(parse_forbidden_columns("").unwrap(), Vec::<usize>::new());
}

#[test]
fn class_response() {
    let _ = ClassResponse::new(vec!["true".to_owned(), "false".to_owned()]);
}
