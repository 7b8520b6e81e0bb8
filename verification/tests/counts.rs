use cutr::{cat_line, count, count_line, counted_line, same_trimmed, FileInfo};

#[test]
fn test_count() {
    let text = "I don't want the world. I just want your half.\r\n";
    let info = count(text);

    let expected = FileInfo { num_lines: 1, num_words: 10, num_chars: 48, num_bytes: 48 };

    assert_eq!(info, expected);
}

#[test]
fn test_count_empty_text() {
    let info = count("");
    assert_eq!(info, FileInfo { num_lines: 0, num_words: 0, num_chars: 0, num_bytes: 0 });
}

#[test]
fn test_count_final_fragment_is_a_line() {
    let info = count("ab cd");
    assert_eq!(info.num_lines, 1);
    assert_eq!(info.num_words, 2);
}

#[test]
fn test_count_multibyte_characters() {
    let info = count("h\u{e9}llo\n");
    assert_eq!(info.num_lines, 1);
    assert_eq!(info.num_words, 1);
    assert_eq!(info.num_chars, 6);
    assert_eq!(info.num_bytes, 7);
}

fn catenate(number_lines: bool, non_blank: bool, input: &str) -> String {
    let mut out = String::new();
    for (num, line) in input.lines().enumerate() {
        out.push_str(&cat_line(number_lines, non_blank, num + 1, line));
        out.push('\n');
    }
    out
}

#[test]
fn it_can_output_stdin() {
    assert_eq!(catenate(false, false, "hello"), "hello\n");
}

#[test]
fn it_can_output_num_lines() {
    assert_eq!(catenate(true, false, "hello\nworld"), "     1\thello\n     2\tworld\n");
}

#[test]
fn it_can_omit_num_empty_lines() {
    assert_eq!(catenate(false, true, "hello\n\nworld"), "     1\thello\n\n     3\tworld\n");
}

#[test]
fn test_cat_line_numbering() {
    assert_eq!(cat_line(true, false, 1, "hello"), "     1\thello");
    assert_eq!(cat_line(false, true, 3, "world"), "     3\tworld");
    assert_eq!(cat_line(false, true, 2, ""), "");
    assert_eq!(cat_line(false, false, 2, "plain"), "plain");
}

#[test]
fn test_count_line_columns() {
    let info = FileInfo { num_lines: 1, num_words: 9, num_bytes: 48, num_chars: 48 };
    assert_eq!(count_line(&info, "tests/inputs/fox.txt"), "       1       9      48 tests/inputs/fox.txt");
}

#[test]
fn test_counted_line_prefix() {
    assert_eq!(counted_line(4, true, "x\n"), "   4 x\n");
    assert_eq!(counted_line(4, false, "x\n"), "x\n");
}

#[test]
fn test_same_trimmed_ignores_trailing_whitespace() {
    assert!(same_trimmed("a \t\n", "a"));
    assert!(same_trimmed("", "  "));
    assert!(!same_trimmed("a", "b"));
    assert!(!same_trimmed("ab", "a"));
}
