use rustscrub::scrub::{
    process_line_streaming, ChangeInfo, State, StreamState, VerboseCommentType,
};

fn line_event(line: usize) -> ChangeInfo {
    ChangeInfo { start_line: line, end_line: line, comment_type: VerboseCommentType::Line }
}

fn block_event(start: usize, end: usize) -> ChangeInfo {
    ChangeInfo { start_line: start, end_line: end, comment_type: VerboseCommentType::Block }
}

fn scan_fresh(line: &str, number: usize) -> (String, Vec<ChangeInfo>, StreamState) {
    let mut st = StreamState::default();
    let (out, events) = process_line_streaming(line, number, &mut st);
    (out, events, st)
}

#[test]
fn default_state_is_code_with_nothing_on_record() {
    let st = StreamState::default();
    assert_eq!(st.current_parse_state, State::Normal);
    assert_eq!(st.raw_string_hash_count, 0);
    assert_eq!(st.active_block_comment_start_line, None);
    assert!(!st.is_processing_full_line_comment);
}

#[test]
fn plain_code_is_kept() {
    let (out, events, st) = scan_fresh("let a = b / c * d;\n", 1);
    assert_eq!(out, "let a = b / c * d;\n");
    assert!(events.is_empty());
    assert_eq!(st.current_parse_state, State::Normal);
}

#[test]
fn empty_line_yields_nothing() {
    let (out, events, st) = scan_fresh("", 1);
    assert_eq!(out, "");
    assert!(events.is_empty());
    assert_eq!(st.current_parse_state, State::Normal);
}

#[test]
fn inline_block_comment_is_cut_out() {
    let (out, events, st) = scan_fresh("let z = /* c */ 30;", 4);
    assert_eq!(out, "let z =  30;");
    assert_eq!(events, vec![block_event(4, 4)]);
    assert_eq!(st.current_parse_state, State::Normal);
    assert_eq!(st.active_block_comment_start_line, None);
}

#[test]
fn full_line_comment_leaves_nothing() {
    let (out, events, st) = scan_fresh("  // note", 9);
    assert_eq!(out, "");
    assert_eq!(events, vec![line_event(9)]);
    assert_eq!(st.current_parse_state, State::LineComment);
    assert!(st.is_processing_full_line_comment);
}

#[test]
fn full_line_comment_drops_its_line_feed() {
    let (out, events, st) = scan_fresh("\t // note\n", 2);
    assert_eq!(out, "");
    assert_eq!(events, vec![line_event(2)]);
    assert_eq!(st.current_parse_state, State::Normal);
    assert!(!st.is_processing_full_line_comment);
}

#[test]
fn trailing_comment_keeps_code_and_line_feed() {
    let (out, events, st) = scan_fresh("let x = 10; // ten\n", 7);
    assert_eq!(out, "let x = 10; \n");
    assert_eq!(events, vec![line_event(7)]);
    assert_eq!(st.current_parse_state, State::Normal);
}

#[test]
fn line_comment_goes_on_until_a_line_feed_comes() {
    let mut st = StreamState::default();
    let (out, events) = process_line_streaming("x // first part", 1, &mut st);
    assert_eq!(out, "x ");
    assert_eq!(events, vec![line_event(1)]);
    assert_eq!(st.current_parse_state, State::LineComment);
    let (out, events) = process_line_streaming(" second part\ny", 1, &mut st);
    assert_eq!(out, "\ny");
    assert!(events.is_empty());
    assert_eq!(st.current_parse_state, State::Normal);
}

#[test]
fn unicode_space_before_comment_counts_as_blank() {
    let (out, events, _) = scan_fresh("\u{a0}\u{3000}\u{2003}// c\n", 1);
    assert_eq!(out, "");
    assert_eq!(events, vec![line_event(1)]);
}

#[test]
fn zero_width_space_is_not_blank() {
    let (out, events, _) = scan_fresh("\u{200b}// c\n", 1);
    assert_eq!(out, "\u{200b}\n");
    assert_eq!(events, vec![line_event(1)]);
}

#[test]
fn block_comment_spans_lines() {
    let mut st = StreamState::default();
    let (out, events) = process_line_streaming("a /* one\n", 3, &mut st);
    assert_eq!(out, "a ");
    assert!(events.is_empty());
    assert_eq!(st.current_parse_state, State::BlockComment);
    assert_eq!(st.active_block_comment_start_line, Some(3));
    for number in 4..7 {
        let (out, events) = process_line_streaming("   // * / still inside\n", number, &mut st);
        assert_eq!(out, "");
        assert!(events.is_empty());
        assert_eq!(st.current_parse_state, State::BlockComment);
        assert_eq!(st.active_block_comment_start_line, Some(3));
    }
    let (out, events) = process_line_streaming("end */ b\n", 7, &mut st);
    assert_eq!(out, " b\n");
    assert_eq!(events, vec![block_event(3, 7)]);
    assert_eq!(st.current_parse_state, State::Normal);
    assert_eq!(st.active_block_comment_start_line, None);
}

#[test]
fn block_comments_do_not_nest() {
    let (out, events, st) = scan_fresh("/* a /* b */ c */", 1);
    assert_eq!(out, " c */");
    assert_eq!(events, vec![block_event(1, 1)]);
    assert_eq!(st.current_parse_state, State::Normal);
}

#[test]
fn two_block_comments_on_one_line() {
    let (out, events, _) = scan_fresh("/* comment1 */ code /* comment2 */", 5);
    assert_eq!(out, " code ");
    assert_eq!(events, vec![block_event(5, 5), block_event(5, 5)]);
}

#[test]
fn star_slash_needs_both_characters_in_one_call() {
    let mut st = StreamState::default();
    let (out, _) = process_line_streaming("/* a *", 1, &mut st);
    assert_eq!(out, "");
    assert_eq!(st.current_parse_state, State::BlockComment);
    let (out, events) = process_line_streaming("/ b */ c", 2, &mut st);
    assert_eq!(out, " c");
    assert_eq!(events, vec![block_event(1, 2)]);
}

#[test]
fn recorded_block_start_is_not_overwritten() {
    let mut st = StreamState::default();
    st.active_block_comment_start_line = Some(2);
    let (out, events) = process_line_streaming("x /* y */ z", 8, &mut st);
    assert_eq!(out, "x  z");
    assert_eq!(events, vec![block_event(2, 8)]);
}

#[test]
fn block_comment_without_recorded_start_closes_silently() {
    let mut st = StreamState::default();
    st.current_parse_state = State::BlockComment;
    let (out, events) = process_line_streaming("y */ z", 8, &mut st);
    assert_eq!(out, " z");
    assert!(events.is_empty());
    assert_eq!(st.current_parse_state, State::Normal);
}

#[test]
fn string_literal_hides_comment_markers() {
    let line = "let s = \"hello // not /* a */ comment\";";
    let (out, events, st) = scan_fresh(line, 1);
    assert_eq!(out, line);
    assert!(events.is_empty());
    assert_eq!(st.current_parse_state, State::Normal);
}

#[test]
fn escaped_quote_does_not_end_a_string() {
    let line = "\"say \\\"hi\\\" // not a comment\"";
    let (out, events, st) = scan_fresh(line, 1);
    assert_eq!(out, line);
    assert!(events.is_empty());
    assert_eq!(st.current_parse_state, State::Normal);
}

#[test]
fn escaped_backslash_lets_the_quote_end_the_string() {
    let (out, events, st) = scan_fresh("\"a\\\\\" // c", 1);
    assert_eq!(out, "\"a\\\\\" ");
    assert_eq!(events, vec![line_event(1)]);
    assert_eq!(st.current_parse_state, State::LineComment);
}

#[test]
fn string_escape_is_carried_over_the_end_of_a_call() {
    let mut st = StreamState::default();
    let (out, _) = process_line_streaming("\"abc\\", 1, &mut st);
    assert_eq!(out, "\"abc\\");
    assert_eq!(st.current_parse_state, State::StringEscape);
    let (out, events) = process_line_streaming("\" // still text\" // gone", 2, &mut st);
    assert_eq!(out, "\" // still text\" ");
    assert_eq!(events, vec![line_event(2)]);
}

#[test]
fn unterminated_string_runs_on() {
    let mut st = StreamState::default();
    let (out, events) = process_line_streaming("let s = \"open // x\n", 1, &mut st);
    assert_eq!(out, "let s = \"open // x\n");
    assert!(events.is_empty());
    assert_eq!(st.current_parse_state, State::StringLiteral);
    let (out, events) = process_line_streaming("/* y */\" /* z */\n", 2, &mut st);
    assert_eq!(out, "/* y */\" \n");
    assert_eq!(events, vec![block_event(2, 2)]);
    assert_eq!(st.current_parse_state, State::Normal);
}

#[test]
fn char_literal_hides_comment_markers() {
    let (out, events, st) = scan_fresh("let c = '//'; /* comment */", 1);
    assert_eq!(out, "let c = '//'; ");
    assert_eq!(events, vec![block_event(1, 1)]);
    assert_eq!(st.current_parse_state, State::Normal);
}

#[test]
fn escaped_quote_does_not_end_a_char_literal() {
    let (out, events, st) = scan_fresh("'\\'' // c\n", 1);
    assert_eq!(out, "'\\'' \n");
    assert_eq!(events, vec![line_event(1)]);
    assert_eq!(st.current_parse_state, State::Normal);
    let mut st = StreamState::default();
    let (out, _) = process_line_streaming("'\\", 1, &mut st);
    assert_eq!(out, "'\\");
    assert_eq!(st.current_parse_state, State::CharEscape);
    let (_, _) = process_line_streaming("n", 1, &mut st);
    assert_eq!(st.current_parse_state, State::CharLiteral);
}

#[test]
fn raw_string_hides_comment_markers() {
    let line = "let rs = r#\"raw string /* not a comment */ // also not\"#;";
    let (out, events, st) = scan_fresh(line, 1);
    assert_eq!(out, line);
    assert!(events.is_empty());
    assert_eq!(st.current_parse_state, State::Normal);
    assert_eq!(st.raw_string_hash_count, 0);
}

#[test]
fn raw_string_closes_only_at_a_full_fence() {
    let mut st = StreamState::default();
    let (out, events) = process_line_streaming("r##\"a\"#b", 1, &mut st);
    assert_eq!(out, "r##\"a\"#b");
    assert!(events.is_empty());
    assert_eq!(st.current_parse_state, State::InRawString);
    assert_eq!(st.raw_string_hash_count, 2);
    let (out, events) = process_line_streaming("\"## // c", 1, &mut st);
    assert_eq!(out, "\"## ");
    assert_eq!(events, vec![line_event(1)]);
    assert_eq!(st.raw_string_hash_count, 0);

    let (out, events, st) = scan_fresh("r##\"a\"#b\"##", 1);
    assert_eq!(out, "r##\"a\"#b\"##");
    assert!(events.is_empty());
    assert_eq!(st.current_parse_state, State::Normal);
}

#[test]
fn raw_string_fence_takes_no_more_marks_than_opened_it() {
    let (out, events, st) = scan_fresh("r#\"a\"##// c", 1);
    assert_eq!(out, "r#\"a\"##");
    assert_eq!(events, vec![line_event(1)]);
    assert_eq!(st.current_parse_state, State::LineComment);
}

#[test]
fn raw_string_without_marks() {
    let (out, events, st) = scan_fresh("r\"a // b\" // c", 1);
    assert_eq!(out, "r\"a // b\" ");
    assert_eq!(events, vec![line_event(1)]);
    assert_eq!(st.current_parse_state, State::LineComment);
}

#[test]
fn quote_after_failed_fence_is_tried_again() {
    let (out, events, st) = scan_fresh("r##\"x\"#\"## // c", 1);
    assert_eq!(out, "r##\"x\"#\"## ");
    assert_eq!(events, vec![line_event(1)]);
    assert_eq!(st.current_parse_state, State::LineComment);
}

#[test]
fn raw_string_fence_does_not_reach_over_the_end_of_a_call() {
    let mut st = StreamState::default();
    let (out, _) = process_line_streaming("r#\"a\"", 1, &mut st);
    assert_eq!(out, "r#\"a\"");
    assert_eq!(st.current_parse_state, State::InRawString);
    let (out, events) = process_line_streaming("# // still raw", 2, &mut st);
    assert_eq!(out, "# // still raw");
    assert!(events.is_empty());
    assert_eq!(st.current_parse_state, State::InRawString);
    assert_eq!(st.raw_string_hash_count, 1);
}

#[test]
fn r_without_quote_is_plain_code() {
    let (out, events, st) = scan_fresh("for r# in r#x // c", 1);
    assert_eq!(out, "for r# in r#x ");
    assert_eq!(events, vec![line_event(1)]);
    assert_eq!(st.current_parse_state, State::LineComment);
    let (out, events, st) = scan_fresh("r##", 1);
    assert_eq!(out, "r##");
    assert!(events.is_empty());
    assert_eq!(st.current_parse_state, State::Normal);
    assert_eq!(st.raw_string_hash_count, 0);
}

#[test]
fn identifier_ending_in_r_opens_a_raw_string() {
    let (out, events, st) = scan_fresh("bar\"//x\" // c", 1);
    assert_eq!(out, "bar\"//x\" ");
    assert_eq!(events, vec![line_event(1)]);
    assert_eq!(st.current_parse_state, State::LineComment);
    assert_eq!(st.raw_string_hash_count, 0);
}

#[test]
fn lone_slash_is_kept() {
    let (out, events, _) = scan_fresh("a / b /", 1);
    assert_eq!(out, "a / b /");
    assert!(events.is_empty());
}

#[test]
fn events_come_in_the_order_met() {
    let (out, events, _) = scan_fresh("a /* b */ c // d\n", 6);
    assert_eq!(out, "a  c \n");
    assert_eq!(events, vec![block_event(6, 6), line_event(6)]);
}

#[test]
fn non_ascii_text_is_kept() {
    let (out, events, _) = scan_fresh("let s = \"héllo → 世界\"; // 注释\n", 1);
    assert_eq!(out, "let s = \"héllo → 世界\"; \n");
    assert_eq!(events, vec![line_event(1)]);
}

#[test]
fn second_pass_changes_nothing() {
    let lines = [
        "let x = 10; // ten\n",
        "  // note\n",
        "let z = /* c */ 30;\n",
        "let s = \"a // b\"; /* c */ let t = r#\"/* d */\"#; // e\n",
        "a / b // c",
        "r # /* x */ y",
        "bar/* c */x\"y\"",
    ];
    for line in lines {
        let (first, _, _) = scan_fresh(line, 1);
        let (second, events, _) = scan_fresh(&first, 1);
        assert_eq!(second, first);
        assert!(events.is_empty());
    }
}

#[test]
fn forged_raw_string_is_read_anew() {
    let (first, events, _) = scan_fresh("r/* c */\"\\\"//x\"", 1);
    assert_eq!(first, "r\"\\\"//x\"");
    assert_eq!(events, vec![block_event(1, 1)]);
    let (second, events, _) = scan_fresh(&first, 1);
    assert_eq!(second, "r\"\\\"");
    assert_eq!(events, vec![line_event(1)]);
}

#[test]
fn comment_costs_two_characters_at_least() {
    let lines = ["//", "/**/", "a//\n", "/*", "x /* y */ z // w", "\"/*\""];
    for line in lines {
        let (out, events, st) = scan_fresh(line, 1);
        let open = if st.current_parse_state == State::BlockComment { 2 } else { 0 };
        assert!(out.chars().count() + 2 * events.len() + open <= line.chars().count());
    }
}

fn is_left_of(text: &str, kept: &str) -> bool {
    let mut rest = text.chars();
    kept.chars().all(|c| rest.any(|t| t == c))
}

#[test]
fn scanner_only_takes_characters_out() {
    let lines = [
        "let x = 10; // ten\n",
        "  // note\n",
        "a /* b */ c /* d",
        "r#\"/* kept */\"# /* gone */ '\\'' // gone\n",
        "\"open // kept",
        "x / y // z",
    ];
    for line in lines {
        let (out, _, _) = scan_fresh(line, 1);
        assert!(is_left_of(line, &out), "{:?} -> {:?}", line, out);
    }
    assert!(!is_left_of("abc", "ca"));
    assert!(!is_left_of("abc", "abcd"));
}
