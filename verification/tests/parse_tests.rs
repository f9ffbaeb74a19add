use dump_env::parse::{parse_template, Error};

fn to_lines(xs: Vec<&str>) -> Vec<Vec<u8>> {
    xs.into_iter().map(|l| l.as_bytes().to_vec()).collect()
}

fn to_items(xs: Vec<(&str, &str)>) -> Vec<(Vec<u8>, Vec<u8>)> {
    xs.into_iter()
        .map(|(k, v)| (k.as_bytes().to_vec(), v.as_bytes().to_vec()))
        .collect()
}

#[test]
fn test_parse_comment_blank_and_trim() {
    let lines = to_lines(vec!["# comment", "", "KEY = value "]);
    let result = parse_template(&lines);
    assert_eq!(result, to_items(vec![("KEY", "value")]));
}

#[test]
fn test_parse_splits_on_first_separator() {
    let lines = to_lines(vec!["A=B=C"]);
    let result = parse_template(&lines);
    assert_eq!(result, to_items(vec![("A", "B=C")]));
}

#[test]
fn test_parse_skips_line_without_separator() {
    let lines = to_lines(vec!["just some text", "A=1"]);
    let result = parse_template(&lines);
    assert_eq!(result, to_items(vec![("A", "1")]));
}

#[test]
fn test_parse_skips_comment_with_separator() {
    let lines = to_lines(vec!["#X=1", "Y=2"]);
    let result = parse_template(&lines);
    assert_eq!(result, to_items(vec![("Y", "2")]));
}

#[test]
fn test_parse_keeps_duplicate_keys_in_order() {
    let lines = to_lines(vec!["A=1", "A=2"]);
    let result = parse_template(&lines);
    assert_eq!(result, to_items(vec![("A", "1"), ("A", "2")]));
}

#[test]
fn test_parse_empty_value() {
    let lines = to_lines(vec!["A="]);
    let result = parse_template(&lines);
    assert_eq!(result, to_items(vec![("A", "")]));
}

#[test]
fn test_error_message() {
    let e = Error::TemplateNotFound;
    assert_eq!(e.message(), "Template not found");
    assert_eq!(e, Error::TemplateNotFound);
}
