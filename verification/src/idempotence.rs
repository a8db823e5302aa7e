//! A second pass over the scrubbed text of a line: when it changes nothing.

use vstd::prelude::*;
use crate::clean::{bare, class_after, lemma_clean_is_kept, lemma_fence_is_idle};
use crate::laws::{in_comment, lemma_scan_unfold};
use crate::rescan::{
    false_starts_stay, lemma_hash_run_over, lemma_kept_text_stays, lemma_line_clean_from_blank,
    opens_raw_at,
};
use crate::scrub::{
    char_at, hash_run, lemma_hash_run, lookahead, scan_from, scan_line, step, step_len, Scan,
    State, StreamState,
};
use crate::text::{is_blank, is_whitespace, lemma_not_blank};

verus! {

/// Whether an `r` is pending after the step at `pos`: one that opened no raw
/// string and has only `#` marks between it and the end of the text kept.
///
/// An `r` becomes pending when it is read in code and opens no raw string.
/// It stays so while `#` marks are kept and comments are read, and no longer
/// once anything else is kept.
pub open spec fn pending_after(
    line: Seq<char>,
    pos: int,
    state: State,
    fence: usize,
    pending: bool,
) -> bool {
    let c = line[pos];
    match state {
        State::Normal => {
            ||| c == 'r' && class_after(line, pos, state, fence).0 == State::Normal
            ||| pending && c == '#'
            ||| pending && c == '/' && lookahead(line, pos, bare(state, fence)) == 1
        },
        State::LineComment => pending && c != '\n',
        State::BlockComment => pending,
        _ => false,
    }
}

/// Whether the scan of `line` from `pos` on never joins an `r` to a quote
/// that did not follow it in the line.
///
/// `pending` says that the text kept so far ends in an `r` that opened no
/// raw string, followed by nothing but `#` marks: what the scan keeps next
/// will stand right behind them. Where block comments are cut out in
/// between, that may be a quote, and then the scrubbed text holds the
/// opening of a raw string that the line did not hold. Every other
/// character, and the end of the text, is harmless.
pub open spec fn forge_free_from(
    line: Seq<char>,
    pos: int,
    state: State,
    fence: usize,
    pending: bool,
) -> bool
    decreases
        if pos < line.len() {
            line.len() - pos
        } else {
            0
        },
{
    if 0 <= pos < line.len() {
        let c = line[pos];
        let ahead = lookahead(line, pos, bare(state, fence));
        let after = class_after(line, pos, state, fence);
        let still = pending_after(line, pos, state, fence, pending);
        !(pending && state == State::Normal && c == '"') && forge_free_from(
            line,
            pos + 1 + ahead,
            after.0,
            after.1,
            still,
        )
    } else {
        true
    }
}

/// Whether scrubbing `line`, read as code from its start, forges the opening
/// of a raw string: the scrubbed text holds an `r`, `#` marks if any, and a
/// quote in a row where the line had block comments between them.
pub open spec fn forges_raw_string(line: Seq<char>) -> bool {
    !forge_free_from(line, 0, State::Normal, 0, false)
}

/// The step of a scan changes class and fence as `class_after` says, and
/// reads ahead as far as class and fence alone decide.
pub proof fn lemma_class_after(
    line: Seq<char>,
    pos: int,
    line_num: usize,
    cur: Scan,
    fence: usize,
)
    requires
        0 <= pos < line.len(),
        cur.state.current_parse_state == State::InRawString ==> cur.state.raw_string_hash_count
            == fence,
    ensures
        lookahead(line, pos, cur.state) == lookahead(
            line,
            pos,
            bare(cur.state.current_parse_state, fence),
        ),
        ({
            let next = step(line, pos, line_num, cur).state;
            let after = class_after(line, pos, cur.state.current_parse_state, fence);
            &&& next.current_parse_state == after.0
            &&& next.current_parse_state == State::InRawString ==> next.raw_string_hash_count
                == after.1
        }),
{
}

/// While an `r` is pending and no raw string is forged, the scrubbed text
/// goes on with `#` marks, if any, and then with something other than a
/// quote, or it ends.
pub proof fn lemma_pending_tail(
    line: Seq<char>,
    pos: int,
    line_num: usize,
    cur: Scan,
    fence: usize,
)
    requires
        0 <= pos <= line.len(),
        !is_blank(cur.output),
        cur.state.current_parse_state == State::Normal || in_comment(
            cur.state.current_parse_state,
        ),
        cur.state.current_parse_state == State::LineComment
            ==> !cur.state.is_processing_full_line_comment,
        forge_free_from(line, pos, cur.state.current_parse_state, fence, true),
    ensures
        ({
            let out = scan_from(line, pos, line_num, cur).output;
            let q = cur.output.len() as int;
            &&& cur.output.is_prefix_of(out)
            &&& !char_at(out, q + hash_run(out, q), '"')
        }),
    decreases line.len() - pos,
{
    let out = scan_from(line, pos, line_num, cur).output;
    let q = cur.output.len() as int;
    lemma_kept_text_stays(line, pos, line_num, cur);
    if pos < line.len() {
        let c = line[pos];
        let next = step(line, pos, line_num, cur);
        let len = step_len(line, pos, cur.state);
        lemma_scan_unfold(line, pos, line_num, cur);
        lemma_class_after(line, pos, line_num, cur, fence);
        if next.output == cur.output {
            // inside a comment, or at the start of one
            assert(in_comment(next.state.current_parse_state) || next.state.current_parse_state
                == State::Normal);
            lemma_pending_tail(line, pos + len, line_num, next, fence);
        } else {
            assert(next.output == cur.output + line.subrange(pos, pos + len));
            assert(next.output[q] == c);
            let i = choose|i: int|
                0 <= i < cur.output.len() && !is_whitespace(#[trigger] cur.output[i]);
            assert(next.output[i] == cur.output[i]);
            lemma_not_blank(next.output, i);
            lemma_kept_text_stays(line, pos + len, line_num, next);
            assert(out.subrange(0, next.output.len() as int)[q] == out[q]);
            assert(out[q] == c);
            if c == '#' && cur.state.current_parse_state == State::Normal {
                lemma_pending_tail(line, pos + 1, line_num, next, fence);
            } else {
                assert(c != '"');
                assert(c != '#');
            }
        }
    }
}

/// Where scrubbing forges no raw string, every `r` that opens none in the
/// line opens none in the scrubbed text.
proof fn lemma_forge_free_stays(
    line: Seq<char>,
    pos: int,
    line_num: usize,
    cur: Scan,
    fence: usize,
    pending: bool,
    out: Seq<char>,
)
    requires
        0 <= pos <= line.len(),
        out == scan_from(line, pos, line_num, cur).output,
        cur.state.current_parse_state == State::InRawString ==> cur.state.raw_string_hash_count
            == fence,
        forge_free_from(line, pos, cur.state.current_parse_state, fence, pending),
    ensures
        false_starts_stay(line, pos, line_num, cur, out, 0),
    decreases line.len() - pos,
{
    if pos < line.len() {
        let state = cur.state.current_parse_state;
        let next = step(line, pos, line_num, cur);
        let len = step_len(line, pos, cur.state);
        let after = class_after(line, pos, state, fence);
        lemma_scan_unfold(line, pos, line_num, cur);
        lemma_class_after(line, pos, line_num, cur, fence);
        lemma_forge_free_stays(
            line,
            pos + len,
            line_num,
            next,
            after.1,
            pending_after(line, pos, state, fence, pending),
            out,
        );
        if state == State::Normal && line[pos] == 'r' && next.state.current_parse_state
            == State::Normal {
            let p = cur.output.len() as int;
            let marks = hash_run(line, pos + 1) as int;
            lemma_hash_run(line, pos + 1);
            assert(next.output == cur.output + line.subrange(pos, pos + len));
            assert(next.output[p] == 'r');
            lemma_not_blank(next.output, p);
            lemma_pending_tail(line, pos + len, line_num, next, after.1);
            assert forall|j: int| p + 1 <= j < p + 1 + marks implies out[j] == '#' by {
                assert(out.subrange(0, next.output.len() as int)[j] == out[j]);
                assert(next.output[j] == line.subrange(pos, pos + len)[j - p]);
            }
            lemma_hash_run_over(out, p + 1, marks);
            assert(!opens_raw_at(out, p));
        }
    }
}

/// Whether every `r` that the scan of `line` reads in code without opening
/// a raw string opens none in the scrubbed text of the line.
pub open spec fn keeps_false_starts(line: Seq<char>, line_num: usize, st: StreamState) -> bool {
    false_starts_stay(
        line,
        0,
        line_num,
        Scan { state: st, output: Seq::empty(), events: Seq::empty() },
        scan_line(line, line_num, st).output,
        0,
    )
}

/// A second pass over the scrubbed text of a line keeps all of it and finds
/// no comment in it, if every `r` that opened no raw string in the line
/// opens none in the scrubbed text. Both passes read from the start of
/// code.
pub proof fn lemma_second_pass_keeps_all(
    line: Seq<char>,
    line_num: usize,
    st: StreamState,
    line_num2: usize,
    st2: StreamState,
)
    requires
        st.current_parse_state == State::Normal,
        st2.current_parse_state == State::Normal,
        keeps_false_starts(line, line_num, st),
    ensures
        ({
            let first = scan_line(line, line_num, st);
            let second = scan_line(first.output, line_num2, st2);
            second.output == first.output && second.events.len() == 0
        }),
{
    let start = Scan { state: st, output: Seq::empty(), events: Seq::empty() };
    let start2 = Scan { state: st2, output: Seq::empty(), events: Seq::empty() };
    let out = scan_line(line, line_num, st).output;
    assert(out.subrange(0, out.len() as int) =~= out);
    lemma_line_clean_from_blank(line, 0, line_num, start, out, 0);
    lemma_fence_is_idle(
        out,
        0,
        State::Normal,
        st.raw_string_hash_count,
        st2.raw_string_hash_count,
    );
    lemma_clean_is_kept(out, 0, line_num2, start2);
    assert(Seq::<char>::empty() + out =~= out);
}

/// Scrubbing is idempotent: a second pass over the scrubbed text of a line
/// keeps all of it and finds no comment in it. Both passes read from the
/// start of code, and scrubbing the line must not forge the opening of a
/// raw string.
pub proof fn lemma_scan_idempotent(
    line: Seq<char>,
    line_num: usize,
    st: StreamState,
    line_num2: usize,
    st2: StreamState,
)
    requires
        st.current_parse_state == State::Normal,
        st2.current_parse_state == State::Normal,
        !forges_raw_string(line),
    ensures
        ({
            let first = scan_line(line, line_num, st);
            let second = scan_line(first.output, line_num2, st2);
            second.output == first.output && second.events.len() == 0
        }),
{
    let start = Scan { state: st, output: Seq::empty(), events: Seq::empty() };
    let out = scan_line(line, line_num, st).output;
    lemma_forge_free_stays(line, 0, line_num, start, 0, false, out);
    lemma_second_pass_keeps_all(line, line_num, st, line_num2, st2);
}

} // verus!
