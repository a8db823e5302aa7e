//! What holds of the scanner on every input: how it treats stretches of code,
//! literals and comments, and what a second pass over scrubbed text does.

use vstd::prelude::*;
use crate::scrub::{
    char_at, hash_run, lemma_hash_run, scan_from, scan_line, step, step_len, ChangeInfo, Scan,
    State, StreamState, VerboseCommentType,
};
use crate::text::{is_blank, is_whitespace};

verus! {

/// Whether the state lies inside a comment.
pub open spec fn in_comment(state: State) -> bool {
    state == State::LineComment || state == State::BlockComment
}

/// Whether the step at `j` in a state of class `state` takes one character
/// and stays in that class: a character of code that starts nothing, a
/// character of a comment that does not end it, a character of a literal
/// that neither ends it nor escapes the next one.
pub open spec fn plain_at(line: Seq<char>, j: int, state: State) -> bool {
    let c = line[j];
    match state {
        State::Normal => c != '/' && c != '"' && c != '\'' && c != 'r',
        State::LineComment => c != '\n',
        State::BlockComment => !(c == '*' && char_at(line, j + 1, '/')),
        State::StringLiteral => c != '"' && c != '\\',
        State::CharLiteral => c != '\'' && c != '\\',
        State::InRawString => c != '"',
        State::StringEscape | State::CharEscape => false,
    }
}

/// The scan `cur` with `text` added to what it has kept.
pub open spec fn keeping(cur: Scan, text: Seq<char>) -> Scan {
    Scan { output: cur.output + text, ..cur }
}

/// One step of the scan, spelled out.
pub proof fn lemma_scan_unfold(line: Seq<char>, pos: int, line_num: usize, cur: Scan)
    requires
        0 <= pos < line.len(),
    ensures
        scan_from(line, pos, line_num, cur) == scan_from(
            line,
            pos + step_len(line, pos, cur.state),
            line_num,
            step(line, pos, line_num, cur),
        ),
        pos + step_len(line, pos, cur.state) <= line.len(),
{
    lemma_hash_run(line, pos + 1);
}

/// A stretch of plain characters is kept as it is outside comments and
/// dropped inside them; it brings no event and leaves the state as it was.
pub proof fn lemma_plain_run(line: Seq<char>, pos: int, end: int, line_num: usize, cur: Scan)
    requires
        0 <= pos <= end <= line.len(),
        forall|j: int| pos <= j < end ==> plain_at(line, j, cur.state.current_parse_state),
    ensures
        scan_from(line, pos, line_num, cur) == scan_from(
            line,
            end,
            line_num,
            if in_comment(cur.state.current_parse_state) {
                cur
            } else {
                keeping(cur, line.subrange(pos, end))
            },
        ),
    decreases end - pos,
{
    if pos < end {
        assert(plain_at(line, pos, cur.state.current_parse_state));
        let next = step(line, pos, line_num, cur);
        lemma_scan_unfold(line, pos, line_num, cur);
        assert(step_len(line, pos, cur.state) == 1);
        lemma_plain_run(line, pos + 1, end, line_num, next);
        if in_comment(cur.state.current_parse_state) {
            assert(next == cur);
        } else {
            assert(next == keeping(cur, line.subrange(pos, pos + 1)));
            assert(cur.output + line.subrange(pos, pos + 1) + line.subrange(pos + 1, end)
                =~= cur.output + line.subrange(pos, end));
        }
    } else {
        assert(cur.output + line.subrange(pos, end) =~= cur.output);
    }
}

/// A stretch of code that holds no `/`, no quote and no `r` is kept as it
/// is.
pub proof fn lemma_code_kept(line: Seq<char>, pos: int, end: int, line_num: usize, cur: Scan)
    requires
        0 <= pos <= end <= line.len(),
        cur.state.current_parse_state == State::Normal,
        forall|j: int|
            pos <= j < end ==> line[j] != '/' && line[j] != '"' && line[j] != '\'' && line[j]
                != 'r',
    ensures
        scan_from(line, pos, line_num, cur) == scan_from(
            line,
            end,
            line_num,
            keeping(cur, line.subrange(pos, end)),
        ),
{
    lemma_plain_run(line, pos, end, line_num, cur);
}

/// The quote that ends a literal read in `state`.
pub open spec fn closing_quote(state: State) -> char {
    if state == State::CharLiteral || state == State::CharEscape {
        '\''
    } else {
        '"'
    }
}

/// Whether `line[pos..end]` can stand between the quotes of a literal that
/// `quote` delimits: the quote and the backslash occur in it only in
/// escapes, each a backslash and the one character after it.
pub open spec fn is_literal_body(line: Seq<char>, pos: int, end: int, quote: char) -> bool
    decreases end - pos,
{
    if pos >= end {
        pos == end
    } else if line[pos] == '\\' {
        pos + 1 < end && is_literal_body(line, pos + 2, end, quote)
    } else if line[pos] == quote {
        false
    } else {
        is_literal_body(line, pos + 1, end, quote)
    }
}

/// Inside a string or character literal, whatever can stand between its
/// quotes is kept as it is: comment markers in it open no comment, and an
/// escaped quote does not end the literal.
pub proof fn lemma_literal_body_kept(
    line: Seq<char>,
    pos: int,
    end: int,
    line_num: usize,
    cur: Scan,
)
    requires
        0 <= pos <= end <= line.len(),
        cur.state.current_parse_state == State::StringLiteral || cur.state.current_parse_state
            == State::CharLiteral,
        is_literal_body(line, pos, end, closing_quote(cur.state.current_parse_state)),
    ensures
        scan_from(line, pos, line_num, cur) == scan_from(
            line,
            end,
            line_num,
            keeping(cur, line.subrange(pos, end)),
        ),
    decreases end - pos,
{
    if pos < end {
        let one = step(line, pos, line_num, cur);
        lemma_scan_unfold(line, pos, line_num, cur);
        assert(one.output == cur.output + line.subrange(pos, pos + 1));
        if line[pos] == '\\' {
            let two = step(line, pos + 1, line_num, one);
            lemma_scan_unfold(line, pos + 1, line_num, one);
            assert(two.state == cur.state);
            assert(two.output =~= cur.output + line.subrange(pos, pos + 2));
            lemma_literal_body_kept(line, pos + 2, end, line_num, two);
            assert(two.output + line.subrange(pos + 2, end) =~= cur.output + line.subrange(
                pos,
                end,
            ));
        } else {
            assert(one.state == cur.state);
            lemma_literal_body_kept(line, pos + 1, end, line_num, one);
            assert(one.output + line.subrange(pos + 1, end) =~= cur.output + line.subrange(
                pos,
                end,
            ));
        }
    } else {
        assert(cur.output + line.subrange(pos, end) =~= cur.output);
    }
}

/// A string or character literal met in code is kept whole, from its
/// opening quote at `pos` to its closing quote at `end`: it brings no event,
/// and the scan goes on behind it in the state it had before it.
pub proof fn lemma_literal_kept(line: Seq<char>, pos: int, end: int, line_num: usize, cur: Scan)
    requires
        0 <= pos < end < line.len(),
        cur.state.current_parse_state == State::Normal,
        line[pos] == '"' || line[pos] == '\'',
        line[end] == line[pos],
        is_literal_body(line, pos + 1, end, line[pos]),
    ensures
        scan_from(line, pos, line_num, cur) == scan_from(
            line,
            end + 1,
            line_num,
            keeping(cur, line.subrange(pos, end + 1)),
        ),
{
    let opened = step(line, pos, line_num, cur);
    lemma_scan_unfold(line, pos, line_num, cur);
    lemma_literal_body_kept(line, pos + 1, end, line_num, opened);
    let inside = keeping(opened, line.subrange(pos + 1, end));
    lemma_scan_unfold(line, end, line_num, inside);
    let closed = step(line, end, line_num, inside);
    assert(closed.state == cur.state);
    assert(closed.output =~= cur.output + line.subrange(pos, end + 1));
}

/// Whether a raw string that `fence` marks opened ends at `j`: a quote
/// stands there, and at least `fence` marks follow it.
pub open spec fn closes_raw(line: Seq<char>, j: int, fence: int) -> bool {
    char_at(line, j, '"') && hash_run(line, j + 1) >= fence
}

/// Inside a raw string, a stretch in which the string does not end is kept
/// as it is, quotes with too few marks behind them included. The stretch
/// must not end within a run of marks.
pub proof fn lemma_raw_body_kept(line: Seq<char>, pos: int, end: int, line_num: usize, cur: Scan)
    requires
        0 <= pos <= end <= line.len(),
        cur.state.current_parse_state == State::InRawString,
        forall|j: int|
            pos <= j < end ==> !closes_raw(line, j, cur.state.raw_string_hash_count as int),
        !char_at(line, end, '#'),
    ensures
        scan_from(line, pos, line_num, cur) == scan_from(
            line,
            end,
            line_num,
            keeping(cur, line.subrange(pos, end)),
        ),
    decreases end - pos,
{
    if pos < end {
        let next = step(line, pos, line_num, cur);
        let len = step_len(line, pos, cur.state);
        lemma_scan_unfold(line, pos, line_num, cur);
        lemma_hash_run(line, pos + 1);
        assert(!closes_raw(line, pos, cur.state.raw_string_hash_count as int));
        assert(pos + len <= end) by {
            if pos + len > end {
                assert(line[end] == '#');
            }
        }
        assert(next == keeping(cur, line.subrange(pos, pos + len)));
        lemma_raw_body_kept(line, pos + len, end, line_num, next);
        assert(next.output + line.subrange(pos + len, end) =~= cur.output + line.subrange(
            pos,
            end,
        ));
    } else {
        assert(cur.output + line.subrange(pos, end) =~= cur.output);
    }
}

/// A raw string met in code is kept whole. It opens at `pos` with `r`,
/// `fence` marks and a quote, and it ends at the first quote behind that
/// which at least `fence` marks follow, at `end`: a quote with fewer marks
/// behind it does not end it, and of the marks behind the last quote only
/// `fence` belong to it. It brings no event.
pub proof fn lemma_raw_string_kept(
    line: Seq<char>,
    pos: int,
    fence: usize,
    end: int,
    line_num: usize,
    cur: Scan,
)
    requires
        0 <= pos,
        pos + fence + 1 < end < line.len(),
        cur.state.current_parse_state == State::Normal,
        line[pos] == 'r',
        hash_run(line, pos + 1) == fence,
        line[pos + fence + 1] == '"',
        forall|j: int| pos + fence + 1 < j < end ==> !closes_raw(line, j, fence as int),
        closes_raw(line, end, fence as int),
    ensures
        scan_from(line, pos, line_num, cur) == scan_from(
            line,
            end + fence + 1,
            line_num,
            Scan {
                state: StreamState { raw_string_hash_count: 0, ..cur.state },
                output: cur.output + line.subrange(pos, end + fence + 1),
                ..cur
            },
        ),
{
    let body = pos + fence + 2;
    let opened = step(line, pos, line_num, cur);
    lemma_scan_unfold(line, pos, line_num, cur);
    assert(opened.state.current_parse_state == State::InRawString);
    assert(opened.state.raw_string_hash_count == fence);
    lemma_raw_body_kept(line, body, end, line_num, opened);
    let inside = keeping(opened, line.subrange(body, end));
    lemma_scan_unfold(line, end, line_num, inside);
    lemma_hash_run(line, end + 1);
    let closed = step(line, end, line_num, inside);
    assert(closed.output =~= cur.output + line.subrange(pos, end + fence + 1));
}

/// Whether the two characters at `j` end a block comment.
pub open spec fn block_end_at(line: Seq<char>, j: int) -> bool {
    char_at(line, j, '*') && char_at(line, j + 1, '/')
}

/// The scan after a block comment has ended on line `line_num`: back in
/// code, with the comment on record from the line where it began.
pub open spec fn block_closed(cur: Scan, line_num: usize) -> Scan {
    match cur.state.active_block_comment_start_line {
        Some(start) => Scan {
            state: StreamState {
                current_parse_state: State::Normal,
                active_block_comment_start_line: None,
                ..cur.state
            },
            events: cur.events.push(
                ChangeInfo {
                    start_line: start,
                    end_line: line_num,
                    comment_type: VerboseCommentType::Block,
                },
            ),
            ..cur
        },
        None => Scan {
            state: StreamState { current_parse_state: State::Normal, ..cur.state },
            ..cur
        },
    }
}

/// A line that lies wholly inside a block comment leaves nothing: no text,
/// no event, and the state as it was.
pub proof fn lemma_inside_block_comment(line: Seq<char>, line_num: usize, st: StreamState)
    requires
        st.current_parse_state == State::BlockComment,
        forall|j: int| 0 <= j < line.len() ==> !block_end_at(line, j),
    ensures
        scan_line(line, line_num, st) == (Scan {
            state: st,
            output: Seq::empty(),
            events: Seq::empty(),
        }),
{
    let cur = Scan { state: st, output: Seq::empty(), events: Seq::empty() };
    assert forall|j: int| 0 <= j < line.len() implies plain_at(line, j, State::BlockComment) by {
        assert(!block_end_at(line, j));
    }
    lemma_plain_run(line, 0, line.len() as int, line_num, cur);
}

/// A block comment that is open at `pos` and ends with the `*/` at `end`
/// leaves no text, whatever stands in it, and is put on record once, from
/// the line where it began to this line.
pub proof fn lemma_block_comment_ends(
    line: Seq<char>,
    pos: int,
    end: int,
    line_num: usize,
    cur: Scan,
)
    requires
        0 <= pos <= end,
        end + 1 < line.len(),
        cur.state.current_parse_state == State::BlockComment,
        forall|j: int| pos <= j < end ==> !block_end_at(line, j),
        block_end_at(line, end),
    ensures
        scan_from(line, pos, line_num, cur) == scan_from(
            line,
            end + 2,
            line_num,
            block_closed(cur, line_num),
        ),
{
    assert forall|j: int| pos <= j < end implies plain_at(line, j, State::BlockComment) by {
        assert(!block_end_at(line, j));
    }
    lemma_plain_run(line, pos, end, line_num, cur);
    lemma_scan_unfold(line, end, line_num, cur);
}

/// A block comment met in code, from its `/*` at `pos` to its `*/` at `end`,
/// is cut out: the text kept before it stays, the scan goes on behind it in
/// code, and one record says that the comment began and ended on this line.
pub proof fn lemma_block_comment_removed(
    line: Seq<char>,
    pos: int,
    end: int,
    line_num: usize,
    cur: Scan,
)
    requires
        0 <= pos,
        pos + 2 <= end,
        end + 1 < line.len(),
        cur.state.current_parse_state == State::Normal,
        cur.state.active_block_comment_start_line is None,
        line[pos] == '/',
        line[pos + 1] == '*',
        forall|j: int| pos + 2 <= j < end ==> !block_end_at(line, j),
        block_end_at(line, end),
    ensures
        scan_from(line, pos, line_num, cur) == scan_from(
            line,
            end + 2,
            line_num,
            Scan {
                events: cur.events.push(
                    ChangeInfo {
                        start_line: line_num,
                        end_line: line_num,
                        comment_type: VerboseCommentType::Block,
                    },
                ),
                ..cur
            },
        ),
{
    lemma_scan_unfold(line, pos, line_num, cur);
    let opened = step(line, pos, line_num, cur);
    lemma_block_comment_ends(line, pos + 2, end, line_num, opened);
}

/// A line that holds nothing but a line comment, with or without white
/// space before it and with or without its line feed, leaves no text at
/// all — neither the white space nor the line feed — and exactly one record,
/// of a line comment on this line.
pub proof fn lemma_full_line_comment(
    indent: Seq<char>,
    comment: Seq<char>,
    ended: bool,
    line_num: usize,
    st: StreamState,
)
    requires
        st.current_parse_state == State::Normal,
        is_blank(indent),
        forall|j: int| 0 <= j < comment.len() ==> comment[j] != '\n',
    ensures
        ({
            let line = indent + seq!['/', '/'] + comment + if ended {
                seq!['\n']
            } else {
                Seq::empty()
            };
            let scan = scan_line(line, line_num, st);
            &&& scan.output == Seq::<char>::empty()
            &&& scan.events == seq![
                ChangeInfo {
                    start_line: line_num,
                    end_line: line_num,
                    comment_type: VerboseCommentType::Line,
                },
            ]
            &&& scan.state == if ended {
                StreamState { is_processing_full_line_comment: false, ..st }
            } else {
                StreamState {
                    current_parse_state: State::LineComment,
                    is_processing_full_line_comment: true,
                    ..st
                }
            }
        }),
{
    let tail = if ended {
        seq!['\n']
    } else {
        Seq::empty()
    };
    let line = indent + seq!['/', '/'] + comment + tail;
    let start = Scan { state: st, output: Seq::empty(), events: Seq::empty() };
    let a = indent.len() as int;
    let b = a + 2 + comment.len();
    assert forall|j: int| 0 <= j < a implies plain_at(line, j, State::Normal) by {
        assert(line[j] == indent[j]);
        assert(is_whitespace(indent[j]));
    }
    lemma_plain_run(line, 0, a, line_num, start);
    let indented = keeping(start, line.subrange(0, a));
    assert(indented.output =~= indent);
    assert(line[a] == '/' && line[a + 1] == '/');
    lemma_scan_unfold(line, a, line_num, indented);
    let opened = step(line, a, line_num, indented);
    assert(opened.output == Seq::<char>::empty());
    assert(opened.events =~= seq![
        ChangeInfo {
            start_line: line_num,
            end_line: line_num,
            comment_type: VerboseCommentType::Line,
        },
    ]);
    assert forall|j: int| a + 2 <= j < b implies plain_at(line, j, State::LineComment) by {
        assert(line[j] == comment[j - a - 2]);
    }
    lemma_plain_run(line, a + 2, b, line_num, opened);
    if ended {
        assert(line[b] == '\n');
        lemma_scan_unfold(line, b, line_num, opened);
        let closed = step(line, b, line_num, opened);
        assert(scan_from(line, b + 1, line_num, closed) == closed);
    } else {
        assert(scan_from(line, b, line_num, opened) == opened);
    }
}

/// A line comment behind code, from its `//` at `pos` to the line feed at
/// `end`, is cut out: the code before it stays as it is, white space
/// included, the line feed is kept, and one record says that a line comment
/// was removed on this line.
pub proof fn lemma_trailing_comment_removed(
    line: Seq<char>,
    pos: int,
    end: int,
    line_num: usize,
    cur: Scan,
)
    requires
        0 <= pos,
        pos + 2 <= end < line.len(),
        cur.state.current_parse_state == State::Normal,
        !is_blank(cur.output),
        line[pos] == '/',
        line[pos + 1] == '/',
        forall|j: int| pos + 2 <= j < end ==> line[j] != '\n',
        line[end] == '\n',
    ensures
        scan_from(line, pos, line_num, cur) == scan_from(
            line,
            end + 1,
            line_num,
            Scan {
                state: StreamState { is_processing_full_line_comment: false, ..cur.state },
                output: cur.output.push('\n'),
                events: cur.events.push(
                    ChangeInfo {
                        start_line: line_num,
                        end_line: line_num,
                        comment_type: VerboseCommentType::Line,
                    },
                ),
            },
        ),
{
    lemma_scan_unfold(line, pos, line_num, cur);
    let opened = step(line, pos, line_num, cur);
    lemma_plain_run(line, pos + 2, end, line_num, opened);
    lemma_scan_unfold(line, end, line_num, opened);
    let closed = step(line, end, line_num, opened);
    assert(closed.output =~= cur.output.push('\n'));
}

/// Whether `event` can come from the scan of line `line_num` that is
/// entered in state `st`: it ends on that line; a line comment begins there
/// too; a block comment begins there or on the line that `st` has on record
/// for an open block comment.
pub open spec fn event_of_line(event: ChangeInfo, line_num: usize, st: StreamState) -> bool {
    &&& event.end_line == line_num
    &&& event.comment_type == VerboseCommentType::Line ==> event.start_line == line_num
    &&& event.comment_type == VerboseCommentType::Block ==> {
        ||| event.start_line == line_num
        ||| st.active_block_comment_start_line == Some(event.start_line)
    }
}

/// Every record that a scan adds is a record of its line.
pub proof fn lemma_events_from(
    line: Seq<char>,
    pos: int,
    line_num: usize,
    cur: Scan,
    st: StreamState,
)
    requires
        0 <= pos <= line.len(),
        cur.state.active_block_comment_start_line == Some(line_num)
            || cur.state.active_block_comment_start_line == st.active_block_comment_start_line
            || cur.state.active_block_comment_start_line is None,
    ensures
        ({
            let last = scan_from(line, pos, line_num, cur);
            &&& cur.events.len() <= last.events.len()
            &&& forall|k: int|
                cur.events.len() <= k < last.events.len() ==> event_of_line(
                    #[trigger] last.events[k],
                    line_num,
                    st,
                )
            &&& forall|k: int|
                0 <= k < cur.events.len() ==> #[trigger] last.events[k] == cur.events[k]
        }),
    decreases line.len() - pos,
{
    if pos < line.len() {
        let next = step(line, pos, line_num, cur);
        lemma_scan_unfold(line, pos, line_num, cur);
        lemma_events_from(line, pos + step_len(line, pos, cur.state), line_num, next, st);
        let last = scan_from(line, pos, line_num, cur);
        assert forall|k: int| cur.events.len() <= k < last.events.len() implies event_of_line(
            #[trigger] last.events[k],
            line_num,
            st,
        ) by {
            if k < next.events.len() {
                assert(last.events[k] == next.events[k]);
            }
        }
    }
}

/// Every record that the scan of a line brings is a record of that line: it
/// ends there, and it begins there unless it is of a block comment that was
/// open when the line was entered.
pub proof fn lemma_events_of_line(line: Seq<char>, line_num: usize, st: StreamState)
    ensures
        forall|k: int|
            0 <= k < scan_line(line, line_num, st).events.len() ==> event_of_line(
                #[trigger] scan_line(line, line_num, st).events[k],
                line_num,
                st,
            ),
{
    let start = Scan { state: st, output: Seq::empty(), events: Seq::empty() };
    lemma_events_from(line, 0, line_num, start, st);
}

/// Whether `kept` is what is left of `text` when some of its characters are
/// taken out: the characters of `kept` all come from `text`, in the same
/// order.
pub open spec fn deletes_to(text: Seq<char>, kept: Seq<char>) -> bool
    decreases text.len(),
{
    if kept.len() == 0 {
        true
    } else if text.len() == 0 {
        false
    } else {
        ||| text.last() == kept.last() && deletes_to(text.drop_last(), kept.drop_last())
        ||| deletes_to(text.drop_last(), kept)
    }
}

/// What is left of a text is left of it still when the text is longer by a
/// character, with that character kept or taken out.
pub proof fn lemma_deletes_to_push(text: Seq<char>, kept: Seq<char>, c: char)
    requires
        deletes_to(text, kept),
    ensures
        deletes_to(text.push(c), kept),
        deletes_to(text.push(c), kept.push(c)),
{
    assert(text.push(c).drop_last() =~= text);
    assert(kept.push(c).drop_last() =~= kept);
}

/// What is left of the start of a line is left of a longer start of it, with
/// the stretch between them kept or taken out.
pub proof fn lemma_deletes_to_stretch(line: Seq<char>, pos: int, end: int, kept: Seq<char>)
    requires
        0 <= pos <= end <= line.len(),
        deletes_to(line.take(pos), kept),
    ensures
        deletes_to(line.take(end), kept),
        deletes_to(line.take(end), kept + line.subrange(pos, end)),
    decreases end - pos,
{
    if pos < end {
        lemma_deletes_to_stretch(line, pos, end - 1, kept);
        let c = line[end - 1];
        assert(line.take(end) =~= line.take(end - 1).push(c));
        assert(kept + line.subrange(pos, end) =~= (kept + line.subrange(pos, end - 1)).push(c));
        lemma_deletes_to_push(line.take(end - 1), kept, c);
        lemma_deletes_to_push(line.take(end - 1), kept + line.subrange(pos, end - 1), c);
    } else {
        assert(kept + line.subrange(pos, end) =~= kept);
    }
}

/// A scan only takes characters out: if what it has kept is left of the
/// line up to where it stands, what it keeps in the end is left of the line.
pub proof fn lemma_only_deletes_from(line: Seq<char>, pos: int, line_num: usize, cur: Scan)
    requires
        0 <= pos <= line.len(),
        deletes_to(line.take(pos), cur.output),
    ensures
        deletes_to(line, scan_from(line, pos, line_num, cur).output),
    decreases line.len() - pos,
{
    if pos < line.len() {
        let next = step(line, pos, line_num, cur);
        let len = step_len(line, pos, cur.state);
        lemma_scan_unfold(line, pos, line_num, cur);
        lemma_deletes_to_stretch(line, pos, pos + len, cur.output);
        assert(next.output == cur.output || next.output == cur.output + line.subrange(
            pos,
            pos + len,
        ) || next.output == Seq::<char>::empty());
        lemma_only_deletes_from(line, pos + len, line_num, next);
    } else {
        assert(line.take(pos) =~= line);
    }
}

/// The scanner only takes characters out: the text kept of a line is the
/// line without some of its characters. Nothing is added, changed or moved.
pub proof fn lemma_scan_only_deletes(line: Seq<char>, line_num: usize, st: StreamState)
    ensures
        deletes_to(line, scan_line(line, line_num, st).output),
{
    let start = Scan { state: st, output: Seq::empty(), events: Seq::empty() };
    lemma_only_deletes_from(line, 0, line_num, start);
}

} // verus!
