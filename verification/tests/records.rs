use cutr::{join_record, split_record, RecordError};

fn strings(parts: &[&str]) -> Vec<String> {
    parts.iter().map(|p| p.to_string()).collect()
}

#[test]
fn test_split_plain_fields() {
    assert_eq!(split_record("a,b,c", ',').unwrap(), strings(&["a", "b", "c"]));
    assert_eq!(split_record("", ',').unwrap(), strings(&[""]));
    assert_eq!(split_record("a,,c,", ',').unwrap(), strings(&["a", "", "c", ""]));
}

#[test]
fn test_split_quoted_fields() {
    assert_eq!(split_record("\"a,b\",c", ',').unwrap(), strings(&["a,b", "c"]));
    assert_eq!(split_record("\"a\"\"b\"", ',').unwrap(), strings(&["a\"b"]));
    assert_eq!(split_record("\"\",x", ',').unwrap(), strings(&["", "x"]));
}

#[test]
fn test_split_unterminated_quote_is_error() {
    assert_eq!(split_record("\"abc", ',').unwrap_err(), RecordError::UnterminatedQuote);
}

#[test]
fn test_split_stray_quote_is_error() {
    assert_eq!(split_record("\"a\"x", ',').unwrap_err(), RecordError::StrayQuote);
}

#[test]
fn test_join_quotes_only_when_needed() {
    assert_eq!(join_record(&strings(&["a", "b"]), ','), "a,b");
    assert_eq!(
        join_record(&strings(&["a,b", "c\"d", "line\nbreak", "plain"]), ','),
        "\"a,b\",\"c\"\"d\",\"line\nbreak\",plain"
    );
}

#[test]
fn test_join_then_split_restores_fields() {
    let fields = strings(&["a,b", "", "c\"d", "plain", "line\r\nbreak"]);
    let line = join_record(&fields, ',');
    assert_eq!(split_record(&line, ',').unwrap(), fields);
}

#[test]
fn test_split_then_join_restores_line() {
    let line = "alpha,beta,,gamma";
    let fields = split_record(line, ',').unwrap();
    assert_eq!(join_record(&fields, ','), line);
}
