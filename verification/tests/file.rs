use rustscrub::file::{count_comments, scrub_text, split_lines, Scrubber};
use rustscrub::scrub::{ChangeInfo, State, VerboseCommentType};

#[test]
fn lines_keep_their_line_feeds() {
    assert_eq!(split_lines("a\nb"), vec!["a\n", "b"]);
    assert_eq!(split_lines("a\n"), vec!["a\n"]);
    assert_eq!(split_lines(""), Vec::<String>::new());
    assert_eq!(split_lines("\n\n"), vec!["\n", "\n"]);
    assert_eq!(split_lines("a\r\nb\r\n"), vec!["a\r\n", "b\r\n"]);
    assert_eq!(split_lines("no line feed"), vec!["no line feed"]);
}

#[test]
fn events_carry_the_line_numbers_of_the_file() {
    let (out, events) = scrub_text("// h\nx // c\n/* a\nb */ y\n", 1);
    assert_eq!(out, "// h\nx \n y\n");
    assert_eq!(
        events,
        vec![
            ChangeInfo { start_line: 2, end_line: 2, comment_type: VerboseCommentType::Line },
            ChangeInfo { start_line: 3, end_line: 4, comment_type: VerboseCommentType::Block },
        ]
    );
}

#[test]
fn header_is_not_scanned() {
    let (out, events) = scrub_text("/* h\nx */ y // c", 1);
    assert_eq!(out, "/* h\nx */ y ");
    assert_eq!(
        events,
        vec![ChangeInfo { start_line: 2, end_line: 2, comment_type: VerboseCommentType::Line }]
    );
}

#[test]
fn full_line_comments_vanish_from_the_text() {
    let (out, events) = scrub_text("a\n  // one\n\t// two\nb\n", 0);
    assert_eq!(out, "a\nb\n");
    assert_eq!(events.len(), 2);
    assert_eq!(events[0].start_line, 2);
    assert_eq!(events[1].start_line, 3);
}

#[test]
fn unterminated_block_comment_swallows_the_rest() {
    let (out, events) = scrub_text("a /* b\nc\nd", 0);
    assert_eq!(out, "a ");
    assert!(events.is_empty());
}

#[test]
fn scrubber_counts_lines_from_one() {
    let mut scrubber = Scrubber::new(1);
    assert_eq!(scrubber.header_lines, 1);
    assert_eq!(scrubber.lines_seen, 0);
    let (out, events) = scrubber.feed_line("// kept\n");
    assert_eq!(out, "// kept\n");
    assert!(events.is_empty());
    assert_eq!(scrubber.lines_seen, 1);
    assert_eq!(scrubber.state.current_parse_state, State::Normal);
    let (out, events) = scrubber.feed_line("x /* y\n");
    assert_eq!(out, "x ");
    assert!(events.is_empty());
    assert_eq!(scrubber.state.current_parse_state, State::BlockComment);
    let (out, events) = scrubber.feed_line("z */\n");
    assert_eq!(out, "\n");
    assert_eq!(
        events,
        vec![ChangeInfo { start_line: 2, end_line: 3, comment_type: VerboseCommentType::Block }]
    );
    assert_eq!(scrubber.lines_seen, 3);
    assert_eq!(scrubber.header_lines, 1);
}

#[test]
fn comments_counted_by_kind() {
    let (_, events) = scrub_text("a // 1\n/* 2 */ b /* 3 */\n// 4\n/* 5\n", 0);
    assert_eq!(count_comments(&events, VerboseCommentType::Line), 2);
    assert_eq!(count_comments(&events, VerboseCommentType::Block), 2);
    assert_eq!(count_comments(&Vec::new(), VerboseCommentType::Line), 0);
}

#[test]
fn second_pass_over_a_scrubbed_text() {
    let text = "// top\nfn f() { /* a */ g(\"// b\"); } // c\n  /* d\n e */ h();\n";
    let (first, events) = scrub_text(text, 0);
    assert_eq!(first, "fn f() {  g(\"// b\"); } \n   h();\n");
    assert_eq!(events.len(), 4);
    let (second, events) = scrub_text(&first, 0);
    assert_eq!(second, first);
    assert!(events.is_empty());
}

#[test]
fn second_pass_with_the_same_header() {
    let text = "// banner\n/* kept */\ncode(); // gone\n  // gone too\nmore(); /* and\nthis */\n";
    let (first, events) = scrub_text(text, 2);
    assert_eq!(first, "// banner\n/* kept */\ncode(); \nmore(); \n");
    assert_eq!(events.len(), 3);
    let (second, events) = scrub_text(&first, 2);
    assert_eq!(second, first);
    assert!(events.is_empty());
}

#[test]
fn raw_string_forged_across_lines_is_read_anew() {
    let (first, events) = scrub_text("r/*\n*/ // c\n\"\\\"//x\"\n", 0);
    assert_eq!(first, "r\"\\\"//x\"\n");
    assert_eq!(events.len(), 2);
    let (second, events) = scrub_text(&first, 0);
    assert_eq!(second, "r\"\\\"\n");
    assert_eq!(events.len(), 1);
}

#[test]
fn unchanged_text_has_no_comment() {
    for text in ["", "a\nb\n", "let s = \"//\";\nlet t = r#\"/* */\"#;\n", "x / y\n'/'\n"] {
        let (out, events) = scrub_text(text, 0);
        assert_eq!(out, text);
        assert!(events.is_empty());
    }
    for text in ["// a\n", "a /* b */\n", "a /*\n", "a\n  // b\nc\n"] {
        let (out, _) = scrub_text(text, 0);
        assert!(out.len() + 2 <= text.len());
    }
}

#[test]
fn scrubbing_only_takes_characters_out() {
    let text = "// h\n/* h */ x\ny // a\n  // b\nz /* c\nd */ w\n";
    for header in 0..4 {
        let (out, _) = scrub_text(text, header);
        let mut rest = text.chars();
        assert!(out.chars().all(|c| rest.any(|t| t == c)), "header {}: {:?}", header, out);
    }
}
