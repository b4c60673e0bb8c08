use wlrune::template::{
    parse_template, point_fields, split_at_char, split_words, template_lines, write_template,
};

fn strings(v: &[&str]) -> Vec<String> {
    v.iter().map(|s| s.to_string()).collect()
}

fn pairs(v: &[(&str, &str)]) -> Vec<(String, String)> {
    v.iter().map(|(x, y)| (x.to_string(), y.to_string())).collect()
}

#[test]
fn split_keeps_empty_pieces() {
    assert_eq!(split_at_char("a,,b,", ','), strings(&["a", "", "b", ""]));
    assert_eq!(split_at_char("", ','), strings(&[""]));
}

#[test]
fn lines_of_template_text() {
    assert_eq!(template_lines("1 2\n3 4"), strings(&["1 2", "3 4"]));
    assert_eq!(template_lines("1 2\r\n3 4\n"), strings(&["1 2", "3 4"]));
    assert_eq!(template_lines(""), Vec::<String>::new());
    assert_eq!(template_lines("\n"), strings(&[""]));
    assert_eq!(template_lines("a\r"), strings(&["a\r"]));
}

#[test]
fn fields_of_a_line() {
    assert_eq!(point_fields("1.5 -2"), Some(("1.5".to_string(), "-2".to_string())));
    assert_eq!(point_fields("1 2 3"), Some(("1".to_string(), "2".to_string())));
    assert_eq!(point_fields("1  2"), Some(("1".to_string(), "2".to_string())));
    assert_eq!(point_fields("1\t2"), Some(("1".to_string(), "2".to_string())));
    assert_eq!(point_fields("  3.5 \t 4  "), Some(("3.5".to_string(), "4".to_string())));
    assert_eq!(point_fields("  12  "), None);
    assert_eq!(point_fields("12"), None);
    assert_eq!(point_fields(""), None);
}

#[test]
fn words_are_runs_without_whitespace() {
    assert_eq!(split_words(" a\tbc  d "), strings(&["a", "bc", "d"]));
    assert_eq!(split_words(""), Vec::<String>::new());
    assert_eq!(split_words(" \t "), Vec::<String>::new());
}

#[test]
fn parse_whole_template() {
    assert_eq!(
        parse_template("0 0\n10.5 3\n"),
        Ok(pairs(&[("0", "0"), ("10.5", "3")]))
    );
    assert_eq!(parse_template(""), Ok(Vec::new()));
    assert_eq!(
        parse_template("1\t2\r\n 3   4"),
        Ok(pairs(&[("1", "2"), ("3", "4")]))
    );
}

#[test]
fn parse_reports_first_bad_line() {
    assert_eq!(parse_template("0 0\n\n1 1"), Err(1));
    assert_eq!(parse_template("7\n8"), Err(0));
}

#[test]
fn write_one_point_per_line() {
    let text = write_template(&pairs(&[("0", "0"), ("2.5", "-1")]));
    assert_eq!(text, "0 0\n2.5 -1");
    assert_eq!(write_template(&Vec::new()), "");
}

#[test]
fn written_template_reads_back() {
    let points = pairs(&[("1", "2"), ("3.25", "4e-3"), ("-5", "6")]);
    assert_eq!(parse_template(&write_template(&points)), Ok(points));
}
