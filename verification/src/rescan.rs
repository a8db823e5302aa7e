//! Reading scrubbed text again: the second pass beside the first, step by
//! step, through what the first pass keeps of a line.

use vstd::prelude::*;
use crate::clean::{clean_from, lemma_class_exact};
use crate::laws::{in_comment, lemma_scan_unfold};
use crate::scrub::{
    char_at, hash_run, lemma_hash_run, lookahead, scan_from, step, step_len, Scan, State,
    StreamState,
};
use crate::text::{is_blank, is_whitespace, lemma_blank_push, lemma_not_blank};

verus! {

/// Whether the state lies inside a literal: a string, a character or a raw
/// string.
pub open spec fn in_literal(state: State) -> bool {
    state != State::Normal && !in_comment(state)
}

/// Whether the step at `pos` is taken in code and keeps a character that is
/// no white space.
pub open spec fn starts_ink(line: Seq<char>, pos: int, st: StreamState) -> bool {
    &&& 0 <= pos < line.len()
    &&& st.current_parse_state == State::Normal
    &&& !is_whitespace(line[pos])
    &&& !(line[pos] == '/' && (char_at(line, pos + 1, '/') || char_at(line, pos + 1, '*')))
}

/// Text that is not blank stays: what a scan has kept is never taken back
/// once it holds more than white space, nor while the scan is inside a
/// literal.
pub proof fn lemma_kept_text_stays(line: Seq<char>, pos: int, line_num: usize, cur: Scan)
    requires
        !is_blank(cur.output) || in_literal(cur.state.current_parse_state),
    ensures
        cur.output.is_prefix_of(scan_from(line, pos, line_num, cur).output),
    decreases
        if pos < line.len() {
            line.len() - pos
        } else {
            0
        },
{
    if 0 <= pos < line.len() {
        let next = step(line, pos, line_num, cur);
        let len = step_len(line, pos, cur.state);
        lemma_scan_unfold(line, pos, line_num, cur);
        let kept = line.subrange(pos, pos + len);
        assert(next.output == cur.output || next.output == cur.output + kept);
        lemma_stays_settled(line, pos, line_num, cur);
        lemma_kept_text_stays(line, pos + len, line_num, next);
        let last = scan_from(line, pos, line_num, cur).output;
        assert(cur.output.is_prefix_of(next.output));
        assert(cur.output =~= last.subrange(0, cur.output.len() as int)) by {
            assert(next.output =~= last.subrange(0, next.output.len() as int));
        }
    }
}

/// After a step, text that was safe from being taken back is so still.
pub proof fn lemma_stays_settled(line: Seq<char>, pos: int, line_num: usize, cur: Scan)
    requires
        0 <= pos < line.len(),
        !is_blank(cur.output) || in_literal(cur.state.current_parse_state),
    ensures
        ({
            let next = step(line, pos, line_num, cur);
            !is_blank(next.output) || in_literal(next.state.current_parse_state)
        }),
{
    let next = step(line, pos, line_num, cur);
    let len = step_len(line, pos, cur.state);
    lemma_scan_unfold(line, pos, line_num, cur);
    let kept = line.subrange(pos, pos + len);
    assert(kept[0] == line[pos]);
    if !is_blank(cur.output) {
        assert(next.output == cur.output || next.output == cur.output + kept);
        let i = choose|i: int|
            0 <= i < cur.output.len() && !is_whitespace(#[trigger] cur.output[i]);
        assert(next.output[i] == cur.output[i]);
        lemma_not_blank(next.output, i);
    } else if !in_literal(next.state.current_parse_state) {
        // the quote that ends a literal is kept
        assert(next.output == cur.output + kept);
        assert(next.output[cur.output.len() as int] == line[pos]);
        lemma_not_blank(next.output, cur.output.len() as int);
    }
}

/// Outside comments the scan keeps the character it stands at, unless that
/// is a `/` in code: where the text kept so far is safe from being taken
/// back, it is the next character of the scrubbed text. At the end of the
/// line the scrubbed text is what has been kept.
pub proof fn lemma_next_kept(line: Seq<char>, pos: int, line_num: usize, cur: Scan)
    requires
        0 <= pos <= line.len(),
        !is_blank(cur.output) || in_literal(cur.state.current_parse_state),
        !in_comment(cur.state.current_parse_state),
        cur.state.current_parse_state == State::Normal && pos < line.len() ==> line[pos] != '/',
    ensures
        ({
            let out = scan_from(line, pos, line_num, cur).output;
            let q = cur.output.len() as int;
            if pos < line.len() {
                q < out.len() && out[q] == line[pos] && cur.output.is_prefix_of(out)
            } else {
                out == cur.output
            }
        }),
{
    if pos < line.len() {
        let next = step(line, pos, line_num, cur);
        let len = step_len(line, pos, cur.state);
        lemma_scan_unfold(line, pos, line_num, cur);
        assert(next.output == cur.output + line.subrange(pos, pos + len));
        let q = cur.output.len() as int;
        assert(next.output[q] == line[pos]);
        lemma_stays_settled(line, pos, line_num, cur);
        lemma_kept_text_stays(line, pos + len, line_num, next);
        let out = scan_from(line, pos, line_num, cur).output;
        assert(out.subrange(0, next.output.len() as int)[q] == out[q]);
        assert(cur.output =~= out.subrange(0, q));
    }
}

/// A run of `#` marks counts on behind a stretch of them.
pub proof fn lemma_hash_run_over(text: Seq<char>, from: int, count: int)
    requires
        0 <= from,
        0 <= count,
        from + count <= text.len(),
        forall|j: int| from <= j < from + count ==> text[j] == '#',
    ensures
        hash_run(text, from) == count + hash_run(text, from + count),
    decreases count,
{
    if count > 0 {
        lemma_hash_run_over(text, from + 1, count - 1);
    }
}

/// The class in which a second pass reads what the first pass keeps while
/// it is in class `state`: the same class, but code where the first pass
/// reads a comment.
pub open spec fn kept_class(state: State) -> State {
    if in_comment(state) {
        State::Normal
    } else {
        state
    }
}

/// Whether an `r` at `p`, read in code, opens a raw string: `#` marks, if
/// any, and a quote follow it.
pub open spec fn opens_raw_at(text: Seq<char>, p: int) -> bool {
    char_at(text, p + 1 + hash_run(text, p + 1), '"')
}

/// Whether every `r` that the scan of `line` from `pos` on reads in code
/// without opening a raw string opens none where it is kept: in `whole`,
/// which holds the text kept of the line from `base` on.
pub open spec fn false_starts_stay(
    line: Seq<char>,
    pos: int,
    line_num: usize,
    cur: Scan,
    whole: Seq<char>,
    base: int,
) -> bool
    decreases
        if pos < line.len() {
            line.len() - pos
        } else {
            0
        },
{
    if 0 <= pos < line.len() {
        let next = step(line, pos, line_num, cur);
        let false_start = cur.state.current_parse_state == State::Normal && line[pos] == 'r'
            && next.state.current_parse_state == State::Normal;
        (false_start ==> !opens_raw_at(whole, base + cur.output.len())) && false_starts_stay(
            line,
            pos + 1 + lookahead(line, pos, cur.state),
            line_num,
            next,
            whole,
            base,
        )
    } else {
        true
    }
}

/// Whether `whole` holds, from `base` on, what the scan goes on to keep of
/// `line`, and holds nothing behind that unless the line ends in a line
/// feed.
pub open spec fn placed(
    line: Seq<char>,
    pos: int,
    line_num: usize,
    cur: Scan,
    whole: Seq<char>,
    base: int,
) -> bool {
    let out = scan_from(line, pos, line_num, cur).output;
    &&& 0 <= base
    &&& base + out.len() <= whole.len()
    &&& whole.subrange(base, base + out.len()) == out
    &&& base + out.len() == whole.len() || (line.len() > 0 && line.last() == '\n')
}

/// Whether the text kept so far is safe from being taken back.
pub open spec fn settled(line: Seq<char>, pos: int, cur: Scan) -> bool {
    ||| !is_blank(cur.output)
    ||| in_literal(cur.state.current_parse_state)
    ||| starts_ink(line, pos, cur.state)
}

/// Where the two passes stand abreast: the first at `pos` in the line, the
/// second in `whole` behind what the first has kept, in the class that
/// answers to that of the first and with the same fence.
pub open spec fn abreast(
    line: Seq<char>,
    pos: int,
    line_num: usize,
    cur: Scan,
    whole: Seq<char>,
    base: int,
) -> bool {
    &&& 0 <= pos <= line.len()
    &&& placed(line, pos, line_num, cur, whole, base)
    &&& settled(line, pos, cur)
    &&& cur.state.current_parse_state == State::LineComment
        ==> !cur.state.is_processing_full_line_comment
    &&& false_starts_stay(line, pos, line_num, cur, whole, base)
}

/// Whether the second pass, abreast of the first, finds no comment in the
/// rest of `whole`.
pub open spec fn clean_ahead(cur: Scan, whole: Seq<char>, base: int) -> bool {
    clean_from(
        whole,
        base + cur.output.len(),
        kept_class(cur.state.current_parse_state),
        cur.state.raw_string_hash_count,
    )
}

/// A step of the first pass leaves the two passes abreast.
proof fn lemma_step_abreast(
    line: Seq<char>,
    pos: int,
    line_num: usize,
    cur: Scan,
    whole: Seq<char>,
    base: int,
)
    requires
        abreast(line, pos, line_num, cur, whole, base),
        pos < line.len(),
    ensures
        abreast(
            line,
            pos + step_len(line, pos, cur.state),
            line_num,
            step(line, pos, line_num, cur),
            whole,
            base,
        ),
{
    let next = step(line, pos, line_num, cur);
    let len = step_len(line, pos, cur.state);
    lemma_scan_unfold(line, pos, line_num, cur);
    assert(line.subrange(pos, pos + len)[0] == line[pos]);
    if starts_ink(line, pos, cur.state) && is_blank(cur.output) {
        assert(next.output[cur.output.len() as int] == line[pos]);
        lemma_not_blank(next.output, cur.output.len() as int);
    } else {
        lemma_stays_settled(line, pos, line_num, cur);
    }
}

/// What a step of the first pass keeps stands in `whole` where the second
/// pass is.
proof fn lemma_kept_here(
    line: Seq<char>,
    pos: int,
    line_num: usize,
    cur: Scan,
    whole: Seq<char>,
    base: int,
)
    requires
        abreast(line, pos, line_num, cur, whole, base),
        pos < line.len(),
        step(line, pos, line_num, cur).output == cur.output + line.subrange(
            pos,
            pos + step_len(line, pos, cur.state),
        ),
    ensures
        ({
            let len = step_len(line, pos, cur.state);
            let q = base + cur.output.len();
            &&& q + len <= whole.len()
            &&& forall|j: int| q <= j < q + len ==> #[trigger] whole[j] == line[pos + (j - q)]
        }),
{
    let next = step(line, pos, line_num, cur);
    let len = step_len(line, pos, cur.state);
    let q = cur.output.len() as int;
    let out = scan_from(line, pos, line_num, cur).output;
    lemma_scan_unfold(line, pos, line_num, cur);
    assert(line.subrange(pos, pos + len)[0] == line[pos]);
    if !is_blank(cur.output) || in_literal(cur.state.current_parse_state) {
        lemma_stays_settled(line, pos, line_num, cur);
    } else {
        assert(next.output[q] == line[pos]);
        lemma_not_blank(next.output, q);
    }
    lemma_kept_text_stays(line, pos + len, line_num, next);
    assert forall|j: int| base + q <= j < base + q + len implies #[trigger] whole[j] == line[pos
        + (j - (base + q))] by {
        let k = j - base;
        assert(whole.subrange(base, base + out.len())[k] == whole[j]);
        assert(out.subrange(0, next.output.len() as int)[k] == out[k]);
        assert(next.output[k] == line.subrange(pos, pos + len)[k - q]);
    }
}

/// Behind what has been kept outside comments, `whole` holds the character
/// that the first pass stands at, unless that is a `/` in code; at the end
/// of a line that does not end in a line feed, `whole` ends.
proof fn lemma_peek(
    line: Seq<char>,
    pos: int,
    line_num: usize,
    cur: Scan,
    whole: Seq<char>,
    base: int,
)
    requires
        abreast(line, pos, line_num, cur, whole, base),
        !is_blank(cur.output) || in_literal(cur.state.current_parse_state),
        !in_comment(cur.state.current_parse_state),
        cur.state.current_parse_state == State::Normal && pos < line.len() ==> line[pos] != '/',
    ensures
        ({
            let e = base + cur.output.len();
            if pos < line.len() {
                e < whole.len() && whole[e] == line[pos]
            } else {
                e == whole.len() || line.last() == '\n'
            }
        }),
{
    lemma_next_kept(line, pos, line_num, cur);
    let out = scan_from(line, pos, line_num, cur).output;
    if pos < line.len() {
        let q = cur.output.len() as int;
        assert(whole.subrange(base, base + out.len())[q] == whole[base + q]);
    }
}

/// A step of the first pass that keeps nothing: the second pass stays where
/// it is.
proof fn lemma_follow_silent(
    line: Seq<char>,
    pos: int,
    line_num: usize,
    cur: Scan,
    whole: Seq<char>,
    base: int,
)
    requires
        abreast(line, pos, line_num, cur, whole, base),
        pos < line.len(),
        step(line, pos, line_num, cur).output == cur.output,
        clean_ahead(step(line, pos, line_num, cur), whole, base),
    ensures
        clean_ahead(cur, whole, base),
{
    let len = step_len(line, pos, cur.state);
    lemma_scan_unfold(line, pos, line_num, cur);
    assert((cur.output + line.subrange(pos, pos + len)).len() > cur.output.len());
}

/// A step of the first pass that keeps one character and looks at no other:
/// the second pass takes the same step.
proof fn lemma_follow_simple(
    line: Seq<char>,
    pos: int,
    line_num: usize,
    cur: Scan,
    whole: Seq<char>,
    base: int,
)
    requires
        abreast(line, pos, line_num, cur, whole, base),
        pos < line.len(),
        step(line, pos, line_num, cur).output == cur.output + line.subrange(pos, pos + 1),
        cur.state.current_parse_state == State::Normal ==> line[pos] != '/' && line[pos] != 'r',
        cur.state.current_parse_state == State::InRawString ==> line[pos] != '"',
        clean_ahead(step(line, pos, line_num, cur), whole, base),
    ensures
        clean_ahead(cur, whole, base),
{
    lemma_class_exact(line, pos, line_num, cur);
    lemma_kept_here(line, pos, line_num, cur, whole, base);
    let q = base + cur.output.len();
    assert(whole[q] == line[pos]);
}

/// A `/` that the first pass keeps: what it keeps next is neither `/` nor
/// `*`, so the second pass keeps the `/` too.
proof fn lemma_follow_slash(
    line: Seq<char>,
    pos: int,
    line_num: usize,
    cur: Scan,
    whole: Seq<char>,
    base: int,
)
    requires
        abreast(line, pos, line_num, cur, whole, base),
        pos < line.len(),
        cur.state.current_parse_state == State::Normal,
        line[pos] == '/',
        lookahead(line, pos, cur.state) == 0,
        clean_ahead(step(line, pos, line_num, cur), whole, base),
    ensures
        clean_ahead(cur, whole, base),
{
    let next = step(line, pos, line_num, cur);
    let q = base + cur.output.len();
    lemma_class_exact(line, pos, line_num, cur);
    lemma_kept_here(line, pos, line_num, cur, whole, base);
    assert(whole[q] == '/');
    lemma_step_abreast(line, pos, line_num, cur, whole, base);
    assert(next.output[cur.output.len() as int] == '/');
    lemma_not_blank(next.output, cur.output.len() as int);
    lemma_peek(line, pos + 1, line_num, next, whole, base);
    assert(!char_at(whole, q + 1, '/') && !char_at(whole, q + 1, '*'));
}

/// The opening of a raw string: the first pass keeps it whole, so the second
/// pass reads the same opening, with the same fence.
proof fn lemma_follow_raw_open(
    line: Seq<char>,
    pos: int,
    line_num: usize,
    cur: Scan,
    whole: Seq<char>,
    base: int,
)
    requires
        abreast(line, pos, line_num, cur, whole, base),
        pos < line.len(),
        cur.state.current_parse_state == State::Normal,
        line[pos] == 'r',
        step(line, pos, line_num, cur).state.current_parse_state == State::InRawString,
        clean_ahead(step(line, pos, line_num, cur), whole, base),
    ensures
        clean_ahead(cur, whole, base),
{
    let q = base + cur.output.len();
    let marks = hash_run(line, pos + 1) as int;
    lemma_class_exact(line, pos, line_num, cur);
    lemma_hash_run(line, pos + 1);
    lemma_kept_here(line, pos, line_num, cur, whole, base);
    assert(whole[q] == 'r');
    assert(whole[q + marks + 1] == '"');
    assert forall|j: int| q + 1 <= j < q + 1 + marks implies whole[j] == '#' by {
        assert(whole[j] == line[pos + (j - q)]);
    }
    lemma_hash_run_over(whole, q + 1, marks);
    assert(hash_run(whole, q + 1) == marks);
}

/// Behind a stretch of `#` marks in code, text that holds no comment holds
/// none.
proof fn lemma_clean_past_marks(text: Seq<char>, p: int, count: int, fence: usize)
    requires
        0 <= p,
        0 <= count,
        p + count <= text.len(),
        forall|j: int| p <= j < p + count ==> text[j] == '#',
        clean_from(text, p, State::Normal, fence),
    ensures
        clean_from(text, p + count, State::Normal, fence),
    decreases count,
{
    if count > 0 {
        assert(text[p] == '#');
        lemma_clean_past_marks(text, p + 1, count - 1, fence);
    }
}

/// An `r` that opens no raw string in the line, and none where it is kept:
/// the second pass keeps it and the marks behind it as the first pass did.
proof fn lemma_follow_false_start(
    line: Seq<char>,
    pos: int,
    line_num: usize,
    cur: Scan,
    whole: Seq<char>,
    base: int,
)
    requires
        abreast(line, pos, line_num, cur, whole, base),
        pos < line.len(),
        cur.state.current_parse_state == State::Normal,
        line[pos] == 'r',
        step(line, pos, line_num, cur).state.current_parse_state == State::Normal,
        clean_ahead(step(line, pos, line_num, cur), whole, base),
    ensures
        clean_ahead(cur, whole, base),
{
    let q = base + cur.output.len();
    let marks = hash_run(line, pos + 1) as int;
    let fence = cur.state.raw_string_hash_count;
    lemma_class_exact(line, pos, line_num, cur);
    lemma_hash_run(line, pos + 1);
    lemma_kept_here(line, pos, line_num, cur, whole, base);
    assert(whole[q] == 'r');
    assert forall|j: int| q + 1 <= j < q + 1 + marks implies whole[j] == '#' by {
        assert(whole[j] == line[pos + (j - q)]);
    }
    lemma_hash_run_over(whole, q + 1, marks);
    let more = hash_run(whole, q + 1 + marks) as int;
    lemma_hash_run(whole, q + 1 + marks);
    assert(!opens_raw_at(whole, q));
    // the second pass reads on over the marks that the first pass keeps later
    lemma_clean_past_marks(whole, q + 1 + marks, more, fence);
}

/// A quote inside a raw string: the first pass keeps it with the marks it
/// counted behind it, so the second pass counts the same marks and ends the
/// string, or does not, as the first pass did.
proof fn lemma_follow_raw_quote(
    line: Seq<char>,
    pos: int,
    line_num: usize,
    cur: Scan,
    whole: Seq<char>,
    base: int,
)
    requires
        abreast(line, pos, line_num, cur, whole, base),
        pos < line.len(),
        cur.state.current_parse_state == State::InRawString,
        line[pos] == '"',
        clean_ahead(step(line, pos, line_num, cur), whole, base),
    ensures
        clean_ahead(cur, whole, base),
{
    let q = base + cur.output.len();
    let marks = lookahead(line, pos, cur.state) as int;
    let len = step_len(line, pos, cur.state);
    let next = step(line, pos, line_num, cur);
    lemma_class_exact(line, pos, line_num, cur);
    lemma_hash_run(line, pos + 1);
    lemma_kept_here(line, pos, line_num, cur, whole, base);
    assert(whole[q] == '"');
    assert forall|j: int| q + 1 <= j < q + 1 + marks implies whole[j] == '#' by {
        assert(whole[j] == line[pos + (j - q)]);
    }
    lemma_hash_run_over(whole, q + 1, marks);
    if marks < cur.state.raw_string_hash_count {
        // the string goes on: the next character kept is no mark
        lemma_step_abreast(line, pos, line_num, cur, whole, base);
        lemma_peek(line, pos + len, line_num, next, whole, base);
        assert(!char_at(whole, q + len, '#'));
        assert(hash_run(whole, q + 1) == marks);
    }
}

/// Whatever step the first pass takes, the second pass can follow it: if it
/// finds no comment behind the step, it finds none before it.
proof fn lemma_follow(
    line: Seq<char>,
    pos: int,
    line_num: usize,
    cur: Scan,
    whole: Seq<char>,
    base: int,
)
    requires
        abreast(line, pos, line_num, cur, whole, base),
        pos < line.len(),
        clean_ahead(step(line, pos, line_num, cur), whole, base),
    ensures
        clean_ahead(cur, whole, base),
{
    let c = line[pos];
    let next = step(line, pos, line_num, cur);
    let state = cur.state.current_parse_state;
    if next.output == cur.output {
        lemma_follow_silent(line, pos, line_num, cur, whole, base);
    } else if state == State::Normal && c == '/' {
        lemma_follow_slash(line, pos, line_num, cur, whole, base);
    } else if state == State::Normal && c == 'r' {
        if next.state.current_parse_state == State::InRawString {
            lemma_follow_raw_open(line, pos, line_num, cur, whole, base);
        } else {
            lemma_follow_false_start(line, pos, line_num, cur, whole, base);
        }
    } else if state == State::InRawString && c == '"' {
        lemma_follow_raw_quote(line, pos, line_num, cur, whole, base);
    } else {
        lemma_follow_simple(line, pos, line_num, cur, whole, base);
    }
}

/// Abreast of the first pass, the second pass finds no comment in what the
/// first pass keeps of the rest of the line, provided that it finds none
/// behind that.
pub proof fn lemma_line_clean(
    line: Seq<char>,
    pos: int,
    line_num: usize,
    cur: Scan,
    whole: Seq<char>,
    base: int,
)
    requires
        abreast(line, pos, line_num, cur, whole, base),
        clean_ahead(scan_from(line, pos, line_num, cur), whole, base),
    ensures
        clean_ahead(cur, whole, base),
    decreases line.len() - pos,
{
    if pos < line.len() {
        let next = step(line, pos, line_num, cur);
        let len = step_len(line, pos, cur.state);
        lemma_scan_unfold(line, pos, line_num, cur);
        lemma_step_abreast(line, pos, line_num, cur, whole, base);
        lemma_line_clean(line, pos + len, line_num, next, whole, base);
        lemma_follow(line, pos, line_num, cur, whole, base);
    }
}

/// Before a stretch of white space in code, text that holds no comment
/// behind the stretch holds none.
proof fn lemma_clean_before_blank(text: Seq<char>, p: int, e: int, fence: usize)
    requires
        0 <= p <= e <= text.len(),
        forall|j: int| p <= j < e ==> is_whitespace(#[trigger] text[j]),
        clean_from(text, e, State::Normal, fence),
    ensures
        clean_from(text, p, State::Normal, fence),
    decreases e - p,
{
    if p < e {
        assert(is_whitespace(text[p]));
        lemma_clean_before_blank(text, p + 1, e, fence);
    }
}

/// While the first pass has kept nothing but white space of a line, the
/// second pass waits where the text kept of the line begins: it finds no
/// comment from there on, provided that it finds none behind what is kept
/// of the line.
pub proof fn lemma_line_clean_from_blank(
    line: Seq<char>,
    pos: int,
    line_num: usize,
    cur: Scan,
    whole: Seq<char>,
    base: int,
)
    requires
        0 <= pos <= line.len(),
        is_blank(cur.output),
        cur.state.current_parse_state == State::Normal || in_comment(
            cur.state.current_parse_state,
        ),
        cur.state.current_parse_state == State::LineComment
            ==> cur.state.is_processing_full_line_comment,
        placed(line, pos, line_num, cur, whole, base),
        false_starts_stay(line, pos, line_num, cur, whole, base),
        clean_ahead(scan_from(line, pos, line_num, cur), whole, base),
    ensures
        clean_from(whole, base, State::Normal, cur.state.raw_string_hash_count),
    decreases line.len() - pos,
{
    let out = scan_from(line, pos, line_num, cur).output;
    let q = cur.output.len() as int;
    let fence = cur.state.raw_string_hash_count;
    if pos < line.len() && starts_ink(line, pos, cur.state) {
        let next = step(line, pos, line_num, cur);
        let len = step_len(line, pos, cur.state);
        lemma_line_clean(line, pos, line_num, cur, whole, base);
        // the white space kept so far stands in `whole`
        lemma_scan_unfold(line, pos, line_num, cur);
        assert(next.output[q] == line[pos]);
        lemma_not_blank(next.output, q);
        lemma_kept_text_stays(line, pos + len, line_num, next);
        assert forall|j: int| base <= j < base + q implies is_whitespace(#[trigger] whole[j]) by {
            let k = j - base;
            assert(whole.subrange(base, base + out.len())[k] == whole[j]);
            assert(out.subrange(0, next.output.len() as int)[k] == out[k]);
            assert(next.output[k] == cur.output[k]);
        }
        lemma_clean_before_blank(whole, base, base + q, fence);
    } else if pos < line.len() {
        let next = step(line, pos, line_num, cur);
        lemma_scan_unfold(line, pos, line_num, cur);
        lemma_blank_push(cur.output, line[pos]);
        assert(cur.output.push(line[pos]) =~= cur.output + line.subrange(pos, pos + 1));
        lemma_line_clean_from_blank(
            line,
            pos + step_len(line, pos, cur.state),
            line_num,
            next,
            whole,
            base,
        );
    } else {
        assert forall|j: int| base <= j < base + q implies is_whitespace(#[trigger] whole[j]) by {
            assert(whole.subrange(base, base + out.len())[j - base] == whole[j]);
        }
        lemma_clean_before_blank(whole, base, base + q, fence);
    }
}

} // verus!
