//! Text without comments: how to tell that a text holds none, and what the
//! scan keeps of such a text.

use vstd::prelude::*;
use crate::laws::{in_comment, lemma_scan_unfold};
use crate::scrub::{lookahead, scan_from, scan_line, step, step_len, Scan, State, StreamState};

verus! {

/// A state of the given lexical class and fence, with nothing else on
/// record.
pub open spec fn bare(state: State, fence: usize) -> StreamState {
    StreamState {
        current_parse_state: state,
        raw_string_hash_count: fence,
        active_block_comment_start_line: None,
        is_processing_full_line_comment: false,
    }
}

/// The lexical class and the fence after the step at `pos`, which depend on
/// nothing but the class and the fence before it.
pub open spec fn class_after(line: Seq<char>, pos: int, state: State, fence: usize) -> (
    State,
    usize,
) {
    let next = step(
        line,
        pos,
        0,
        Scan { state: bare(state, fence), output: Seq::empty(), events: Seq::empty() },
    ).state;
    (next.current_parse_state, next.raw_string_hash_count)
}

/// The step of a scan changes class and fence as `class_after` says of its
/// own class and fence.
pub proof fn lemma_class_exact(line: Seq<char>, pos: int, line_num: usize, cur: Scan)
    requires
        0 <= pos < line.len(),
    ensures
        lookahead(line, pos, cur.state) == lookahead(
            line,
            pos,
            bare(cur.state.current_parse_state, cur.state.raw_string_hash_count),
        ),
        ({
            let next = step(line, pos, line_num, cur).state;
            class_after(
                line,
                pos,
                cur.state.current_parse_state,
                cur.state.raw_string_hash_count,
            ) == (next.current_parse_state, next.raw_string_hash_count)
        }),
{
}

/// Whether `text` from `pos` on, read in class `state` with fence `fence`,
/// holds no comment: no step of the scan enters one.
pub open spec fn clean_from(text: Seq<char>, pos: int, state: State, fence: usize) -> bool
    decreases
        if pos < text.len() {
            text.len() - pos
        } else {
            0
        },
{
    if 0 <= pos < text.len() {
        let after = class_after(text, pos, state, fence);
        !in_comment(after.0) && clean_from(
            text,
            pos + 1 + lookahead(text, pos, bare(state, fence)),
            after.0,
            after.1,
        )
    } else {
        true
    }
}

/// Text that holds no comment is kept as it is, and brings no event.
pub proof fn lemma_clean_is_kept(text: Seq<char>, pos: int, line_num: usize, cur: Scan)
    requires
        0 <= pos <= text.len(),
        !in_comment(cur.state.current_parse_state),
        clean_from(text, pos, cur.state.current_parse_state, cur.state.raw_string_hash_count),
    ensures
        scan_from(text, pos, line_num, cur).output == cur.output + text.subrange(
            pos,
            text.len() as int,
        ),
        scan_from(text, pos, line_num, cur).events == cur.events,
        !in_comment(scan_from(text, pos, line_num, cur).state.current_parse_state),
    decreases text.len() - pos,
{
    if pos < text.len() {
        let next = step(text, pos, line_num, cur);
        let len = step_len(text, pos, cur.state);
        lemma_scan_unfold(text, pos, line_num, cur);
        lemma_class_exact(text, pos, line_num, cur);
        assert(next.output == cur.output + text.subrange(pos, pos + len));
        lemma_clean_is_kept(text, pos + len, line_num, next);
        assert(next.output + text.subrange(pos + len, text.len() as int) =~= cur.output
            + text.subrange(pos, text.len() as int));
    } else {
        assert(cur.output + text.subrange(pos, text.len() as int) =~= cur.output);
    }
}

/// Outside raw strings the fence does not matter to whether text holds a
/// comment.
pub proof fn lemma_fence_is_idle(
    text: Seq<char>,
    pos: int,
    state: State,
    fence: usize,
    other: usize,
)
    requires
        state != State::InRawString,
    ensures
        clean_from(text, pos, state, fence) == clean_from(text, pos, state, other),
    decreases
        if pos < text.len() {
            text.len() - pos
        } else {
            0
        },
{
    if 0 <= pos < text.len() {
        let after = class_after(text, pos, state, fence);
        let ahead = lookahead(text, pos, bare(state, fence));
        if after.0 != State::InRawString {
            lemma_fence_is_idle(text, pos + 1 + ahead, after.0, fence, other);
        }
    }
}

/// What a scan has used up and what it still has to read, counted in
/// characters: the text kept, two for each comment on record, two for a
/// block comment that is open, and the rest of the line.
pub open spec fn weight(line: Seq<char>, pos: int, cur: Scan) -> int {
    cur.output.len() + 2 * cur.events.len() + if cur.state.current_parse_state
        == State::BlockComment {
        2int
    } else {
        0int
    } + (line.len() - pos)
}

/// No step adds weight, and a scan never loses a record.
pub proof fn lemma_weight_falls(line: Seq<char>, pos: int, line_num: usize, cur: Scan)
    requires
        0 <= pos <= line.len(),
    ensures
        weight(line, line.len() as int, scan_from(line, pos, line_num, cur)) <= weight(
            line,
            pos,
            cur,
        ),
        cur.events.len() <= scan_from(line, pos, line_num, cur).events.len(),
    decreases line.len() - pos,
{
    if pos < line.len() {
        lemma_scan_unfold(line, pos, line_num, cur);
        lemma_weight_falls(
            line,
            pos + step_len(line, pos, cur.state),
            line_num,
            step(line, pos, line_num, cur),
        );
    }
}

/// Every comment costs the line at least two characters: the text kept,
/// with two characters for each comment on record and two more if the line
/// ends inside a block comment, is no longer than the line.
pub proof fn lemma_comments_cost(line: Seq<char>, line_num: usize, st: StreamState)
    requires
        st.current_parse_state != State::BlockComment,
    ensures
        ({
            let scan = scan_line(line, line_num, st);
            scan.output.len() + 2 * scan.events.len() + if scan.state.current_parse_state
                == State::BlockComment {
                2int
            } else {
                0int
            } <= line.len()
        }),
{
    let start = Scan { state: st, output: Seq::empty(), events: Seq::empty() };
    lemma_weight_falls(line, 0, line_num, start);
}

/// Whether a block comment, if one is open, has its first line on record.
pub open spec fn block_start_known(st: StreamState) -> bool {
    st.current_parse_state == State::BlockComment ==> st.active_block_comment_start_line is Some
}

/// A scan that begins with the first line of any open block comment on
/// record ends so.
pub proof fn lemma_block_start_known(line: Seq<char>, pos: int, line_num: usize, cur: Scan)
    requires
        0 <= pos <= line.len(),
        block_start_known(cur.state),
    ensures
        block_start_known(scan_from(line, pos, line_num, cur).state),
    decreases line.len() - pos,
{
    if pos < line.len() {
        lemma_scan_unfold(line, pos, line_num, cur);
        lemma_block_start_known(
            line,
            pos + step_len(line, pos, cur.state),
            line_num,
            step(line, pos, line_num, cur),
        );
    }
}

/// A scan inside a block comment whose first line is on record ends with
/// one record more, or inside the comment.
pub proof fn lemma_open_block_shows(line: Seq<char>, pos: int, line_num: usize, cur: Scan)
    requires
        0 <= pos <= line.len(),
        cur.state.current_parse_state == State::BlockComment,
        cur.state.active_block_comment_start_line is Some,
    ensures
        ({
            let last = scan_from(line, pos, line_num, cur);
            last.events.len() > cur.events.len() || last.state.current_parse_state
                == State::BlockComment
        }),
    decreases line.len() - pos,
{
    if pos < line.len() {
        let next = step(line, pos, line_num, cur);
        let len = step_len(line, pos, cur.state);
        lemma_scan_unfold(line, pos, line_num, cur);
        lemma_weight_falls(line, pos + len, line_num, next);
        if next.state.current_parse_state == State::BlockComment {
            lemma_open_block_shows(line, pos + len, line_num, next);
        }
    }
}

/// A scan that stands outside comments, reports no further comment and does
/// not end inside a block comment keeps the rest of the line as it is.
proof fn lemma_rest_kept(line: Seq<char>, pos: int, line_num: usize, cur: Scan)
    requires
        0 <= pos <= line.len(),
        !in_comment(cur.state.current_parse_state),
        scan_from(line, pos, line_num, cur).events.len() == cur.events.len(),
        scan_from(line, pos, line_num, cur).state.current_parse_state != State::BlockComment,
    ensures
        scan_from(line, pos, line_num, cur).output == cur.output + line.subrange(
            pos,
            line.len() as int,
        ),
    decreases line.len() - pos,
{
    if pos < line.len() {
        let next = step(line, pos, line_num, cur);
        let len = step_len(line, pos, cur.state);
        lemma_scan_unfold(line, pos, line_num, cur);
        lemma_weight_falls(line, pos + len, line_num, next);
        if next.state.current_parse_state == State::BlockComment {
            // it must leave a record, or stay open to the end
            lemma_open_block_shows(line, pos + len, line_num, next);
        } else if next.state.current_parse_state != State::LineComment {
            assert(next.output == cur.output + line.subrange(pos, pos + len));
            lemma_rest_kept(line, pos + len, line_num, next);
            assert(next.output + line.subrange(pos + len, line.len() as int) =~= cur.output
                + line.subrange(pos, line.len() as int));
        }
    } else {
        assert(cur.output + line.subrange(pos, line.len() as int) =~= cur.output);
    }
}

/// A line that ends inside a line comment, entered outside comments, has
/// that comment on record.
pub proof fn lemma_line_comment_shows(line: Seq<char>, line_num: usize, st: StreamState)
    requires
        st.current_parse_state != State::LineComment,
        scan_line(line, line_num, st).state.current_parse_state == State::LineComment,
    ensures
        scan_line(line, line_num, st).events.len() > 0,
{
    let start = Scan { state: st, output: Seq::empty(), events: Seq::empty() };
    lemma_comment_on_record(line, 0, line_num, start);
}

/// A scan that ends inside a line comment has put a comment on record
/// since it last stood outside line comments.
proof fn lemma_comment_on_record(line: Seq<char>, pos: int, line_num: usize, cur: Scan)
    requires
        0 <= pos <= line.len(),
        cur.state.current_parse_state != State::LineComment,
        scan_from(line, pos, line_num, cur).state.current_parse_state == State::LineComment,
    ensures
        scan_from(line, pos, line_num, cur).events.len() > cur.events.len(),
    decreases line.len() - pos,
{
    if pos < line.len() {
        let next = step(line, pos, line_num, cur);
        let len = step_len(line, pos, cur.state);
        lemma_scan_unfold(line, pos, line_num, cur);
        lemma_weight_falls(line, pos + len, line_num, next);
        if next.state.current_parse_state != State::LineComment {
            lemma_comment_on_record(line, pos + len, line_num, next);
        }
    }
}

/// Text in which the scan finds no comment is kept whole: if the scan of a
/// line that is entered outside comments reports none and does not end
/// inside a block comment, the text kept is the line.
pub proof fn lemma_comment_free_kept(line: Seq<char>, line_num: usize, st: StreamState)
    requires
        !in_comment(st.current_parse_state),
        scan_line(line, line_num, st).events.len() == 0,
        scan_line(line, line_num, st).state.current_parse_state != State::BlockComment,
    ensures
        scan_line(line, line_num, st).output == line,
{
    let start = Scan { state: st, output: Seq::empty(), events: Seq::empty() };
    lemma_rest_kept(line, 0, line_num, start);
    assert(Seq::<char>::empty() + line.subrange(0, line.len() as int) =~= line);
}

/// A pass over a line changes nothing exactly when it finds no comment in
/// it: the line is kept whole if and only if the scan, entered outside
/// comments, reports no comment and does not end inside a block comment.
pub proof fn lemma_unchanged_iff_comment_free(line: Seq<char>, line_num: usize, st: StreamState)
    requires
        !in_comment(st.current_parse_state),
    ensures
        ({
            let scan = scan_line(line, line_num, st);
            scan.output == line <==> scan.events.len() == 0 && scan.state.current_parse_state
                != State::BlockComment
        }),
{
    let scan = scan_line(line, line_num, st);
    lemma_comments_cost(line, line_num, st);
    if scan.events.len() == 0 && scan.state.current_parse_state != State::BlockComment {
        lemma_comment_free_kept(line, line_num, st);
    }
}

} // verus!
