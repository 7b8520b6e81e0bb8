use cutr::{parse_delim, parse_index, parse_pos, PosRange};

fn range(start: usize, end: usize) -> PosRange {
    PosRange { start, end }
}

#[test]
fn test_parse_pos() {
    assert!(parse_pos("").is_err());
}

#[test]
fn test_zero_is_error() {
    let res = parse_pos("0");
    assert!(res.is_err());
    assert_eq!(res.unwrap_err().message(), "illegal list value \"0\"");

    let res = parse_pos("0-1");
    assert!(res.is_err());
    assert_eq!(res.unwrap_err().message(), "illegal list value \"0\"");
}

#[test]
fn test_leading_plus_is_error() {
    let res = parse_pos("+1");
    assert!(res.is_err());
    assert_eq!(res.unwrap_err().message(), "illegal list value \"+1\"");

    let res = parse_pos("+1-2");
    assert!(res.is_err());
    assert_eq!(res.unwrap_err().message(), "illegal list value \"+1-2\"");
}

#[test]
fn test_non_number_is_error() {
    let res = parse_pos("a");
    assert!(res.is_err());
    assert_eq!(res.unwrap_err().message(), "illegal list value \"a\"");

    let res = parse_pos("1-a");
    assert!(res.is_err());
    assert_eq!(res.unwrap_err().message(), "illegal list value \"1-a\"");

    let res = parse_pos("a-1");
    assert!(res.is_err());
    assert_eq!(res.unwrap_err().message(), "illegal list value \"a-1\"");
}

#[test]
fn test_waky_ranges_is_error() {
    let res = parse_pos("-");
    assert!(res.is_err());

    let res = parse_pos(",");
    assert!(res.is_err());

    let res = parse_pos("1,");
    assert!(res.is_err());

    let res = parse_pos("1-");
    assert!(res.is_err());

    let res = parse_pos("1-1-1");
    assert!(res.is_err());
}

#[test]
fn test_out_limits_is_error() {
    let res = parse_pos("2-1");
    assert!(res.is_err());
    assert_eq!(
        res.unwrap_err().message(),
        "First number in range (2) must be lower than second number (1)"
    );

    let res = parse_pos("1-1");
    assert!(res.is_err());
    assert_eq!(
        res.unwrap_err().message(),
        "First number in range (1) must be lower than second number (1)"
    );
}

#[test]
fn test_acceptable_values() {
    let res = parse_pos("1");
    assert!(res.is_ok());
    assert_eq!(res.unwrap(), vec![range(0, 1)]);

    let res = parse_pos("01");
    assert!(res.is_ok());
    assert_eq!(res.unwrap(), vec![range(0, 1)]);

    let res = parse_pos("1,3");
    assert!(res.is_ok());
    assert_eq!(res.unwrap(), vec![range(0, 1), range(2, 3)]);

    let res = parse_pos("1-3");
    assert!(res.is_ok());
    assert_eq!(res.unwrap(), vec![range(0, 3)]);

    let res = parse_pos("1,7,3-5");
    assert!(res.is_ok());
    assert_eq!(res.unwrap(), vec![range(0, 1), range(6, 7), range(2, 5)]);

    let res = parse_pos("15,19-20");
    assert!(res.is_ok());
    assert_eq!(res.unwrap(), vec![range(14, 15), range(18, 20)]);
}

#[test]
fn test_range_error_shows_large_numbers() {
    let res = parse_pos("10-2");
    assert!(res.is_err());
    assert_eq!(
        res.unwrap_err().message(),
        "First number in range (10) must be lower than second number (2)"
    );
}

#[test]
fn test_parse_index_values() {
    assert_eq!(parse_index("7").unwrap(), 6);
    assert_eq!(parse_index("007").unwrap(), 6);
    assert_eq!(
        parse_index("0").unwrap_err().message(),
        "illegal list value \"0\""
    );
    let huge = "999999999999999999999999999999";
    let res = parse_index(huge);
    assert!(res.is_err());
    assert_eq!(
        res.unwrap_err().message(),
        format!("illegal list value \"{}\"", huge)
    );
}

#[test]
fn test_parse_delim_single_byte() {
    assert_eq!(parse_delim("\t").unwrap(), b'\t');
    assert_eq!(parse_delim(",").unwrap(), b',');

    let res = parse_delim("ab");
    assert!(res.is_err());
    assert_eq!(res.unwrap_err().message(), "--delim \"ab\" must be a single byte");

    let res = parse_delim("\u{e9}");
    assert!(res.is_err());
    assert_eq!(
        res.unwrap_err().message(),
        "--delim \"\u{e9}\" must be a single byte"
    );
}
