use cutr::{extract_bytes, extract_chars, extract_fields, extract_line, parse_pos, Extract,
    PosRange};

fn range(start: usize, end: usize) -> PosRange {
    PosRange { start, end }
}

#[test]
fn test_chars_range_end_to_end() {
    let pos = parse_pos("1-3").unwrap();
    assert_eq!(extract_chars("hello", &pos), "hel");
}

#[test]
fn test_bytes_selection_end_to_end() {
    let pos = parse_pos("1,3").unwrap();
    assert_eq!(extract_bytes("hello", &pos), "hl");
}

#[test]
fn test_out_of_range_indices_are_omitted() {
    assert_eq!(extract_chars("abc", &vec![range(1, 10)]), "bc");
    assert_eq!(extract_chars("abc", &vec![range(5, 9)]), "");
    assert_eq!(extract_bytes("abc", &vec![range(2, 50)]), "c");
}

#[test]
fn test_ranges_keep_order_and_repeats() {
    assert_eq!(extract_chars("abc", &vec![range(2, 3), range(0, 1)]), "ca");
    assert_eq!(extract_chars("abc", &vec![range(0, 2), range(0, 2)]), "abab");
}

#[test]
fn test_bytes_can_split_a_character() {
    // The first of the two bytes of an accented character is not valid
    // UTF-8 on its own: it decodes to one replacement marker.
    assert_eq!(extract_bytes("\u{e9}", &vec![range(0, 1)]), "\u{fffd}");
    // Both bytes together decode back to the character itself.
    assert_eq!(extract_bytes("\u{e9}", &vec![range(0, 2)]), "\u{e9}");
}

#[test]
fn test_field_order_and_repeats() {
    let fields: Vec<String> = vec!["a".to_string(), "b".to_string(), "c".to_string()];
    let picked = extract_fields(&fields, &vec![range(2, 3), range(0, 1), range(0, 1)]);
    assert_eq!(picked, vec!["c".to_string(), "a".to_string(), "a".to_string()]);
    let none = extract_fields(&fields, &vec![range(5, 7)]);
    assert!(none.is_empty());
}

#[test]
fn test_extract_line_fields_mode() {
    let pos = parse_pos("1,3").unwrap();
    let out = extract_line(&Extract::Fields(pos), b',', "a,b,c");
    assert_eq!(out.unwrap(), "a,c");
}

#[test]
fn test_extract_line_chars_mode() {
    let pos = parse_pos("1-3").unwrap();
    let out = extract_line(&Extract::Chars(pos), b'\t', "hello");
    assert_eq!(out.unwrap(), "hel");
}

#[test]
fn test_extract_line_with_parsed_delimiter() {
    let delim = cutr::parse_delim("\t").unwrap();
    let pos = parse_pos("2").unwrap();
    let out = extract_line(&Extract::Fields(pos), delim, "a\tb\tc");
    assert_eq!(out.unwrap(), "b");
}

#[test]
fn test_extract_line_fields_malformed_record() {
    let pos = parse_pos("1").unwrap();
    let out = extract_line(&Extract::Fields(pos), b',', "\"abc");
    assert!(out.is_err());
}
