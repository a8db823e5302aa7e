use rustscrub::file::scrub_text;

fn scrub_comments_string(input: &str, header_lines_to_keep: usize) -> String {
    scrub_text(input, header_lines_to_keep).0
}

fn assert_code_eq(actual: &str, expected: &str) {
    let actual_processed = actual
        .lines()
        .map(|s| s.trim_end())
        .filter(|s| !s.is_empty())
        .collect::<Vec<_>>()
        .join("\n");
    let expected_processed = expected
        .lines()
        .map(|s| s.trim_end())
        .filter(|s| !s.is_empty())
        .collect::<Vec<_>>()
        .join("\n");
    assert_eq!(actual_processed, expected_processed);
}

#[test]
fn test_remove_single_line_comment() {
    let input = "let x = 10; // This is a comment";
    let expected = "let x = 10;";
    assert_code_eq(&scrub_comments_string(input, 0), expected);
}

#[test]
fn test_remove_full_line_comment() {
    let input = "// This is a full line comment\nlet y = 20;";
    let expected = "let y = 20;";
    assert_code_eq(&scrub_comments_string(input, 0), expected);
}

#[test]
fn test_remove_block_comment_inline() {
    let input = "let z = /* block comment */ 30;";
    let expected = "let z =  30;";
    assert_code_eq(&scrub_comments_string(input, 0), expected);
}

#[test]
fn test_remove_multiline_block_comment() {
    let input = "/*\n  multi-line\n  comment\n*/\nlet a = 40;";
    let expected = "let a = 40;";
    assert_code_eq(&scrub_comments_string(input, 0), expected);
}

#[test]
fn test_preserve_comment_in_string_literal() {
    let input = "let s = \"hello // not a comment\";";
    let expected = "let s = \"hello // not a comment\";";
    assert_code_eq(&scrub_comments_string(input, 0), expected);
}

#[test]
fn test_preserve_comment_in_raw_string_literal() {
    let input = "let rs = r#\"raw string /* not a comment */ // also not\"#;";
    let expected = "let rs = r#\"raw string /* not a comment */ // also not\"#;";
    assert_code_eq(&scrub_comments_string(input, 0), expected);
}

#[test]
fn test_preserve_header_lines_no_comments_in_header() {
    let input = "// Header line 1\n// Header line 2\nlet x = 1;";
    let expected = "// Header line 1\n// Header line 2\nlet x = 1;";
    assert_code_eq(&scrub_comments_string(input, 2), expected);
}

#[test]
fn test_preserve_header_lines_and_scrub_after() {
    let input = "// Header line 1\n// Header line 2\nlet x = 1; // comment to scrub";
    let expected = "// Header line 1\n// Header line 2\nlet x = 1;";
    assert_code_eq(&scrub_comments_string(input, 2), expected);
}

#[test]
fn test_header_lines_count_zero() {
    let input = "// Header line 1\nlet x = 1; // comment to scrub";
    let expected = "let x = 1;";
    assert_code_eq(&scrub_comments_string(input, 0), expected);
}

#[test]
fn test_header_lines_more_than_file_lines() {
    let input = "// Line 1\n// Line 2";
    let expected = "// Line 1\n// Line 2";
    assert_code_eq(&scrub_comments_string(input, 5), expected);
}

#[test]
fn test_empty_input() {
    let input = "";
    let expected = "";
    assert_code_eq(&scrub_comments_string(input, 0), expected);
}

#[test]
fn test_input_with_only_comments() {
    let input = "// comment 1\n/* comment 2 */\n// comment 3";
    let expected = "";
    assert_code_eq(&scrub_comments_string(input, 0), expected);
}

#[test]
fn test_char_literal_with_comment_like_chars() {
    let input = "let c = '//'; /* comment */";
    let expected = "let c = '//';";
    assert_code_eq(&scrub_comments_string(input, 0), expected);
}

#[test]
fn test_raw_string_with_hashes() {
    let input = "let rs = r##\"foo #\"# bar\"##; // comment";
    let expected = "let rs = r##\"foo #\"# bar\"##;";
    assert_code_eq(&scrub_comments_string(input, 0), expected);
}

#[test]
fn test_block_comment_not_greedy() {
    let input = "/* comment1 */ code /* comment2 */";
    let expected = " code ";
    assert_code_eq(&scrub_comments_string(input, 0), expected);
}

#[test]
fn test_line_comment_with_leading_whitespace() {
    let input = "  // This is a comment\nlet x = 1;";
    let expected = "let x = 1;";
    assert_code_eq(&scrub_comments_string(input, 0), expected);
}
