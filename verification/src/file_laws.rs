//! What holds of scrubbing a whole text: when a pass changes nothing, and
//! what a second pass over the scrubbed text does.

use vstd::prelude::*;
use crate::clean::{
    bare, block_start_known, class_after, clean_from, lemma_block_start_known, lemma_class_exact,
    lemma_comment_free_kept, lemma_line_comment_shows, lemma_open_block_shows,
    lemma_weight_falls, weight,
};
use crate::file::{
    lemma_line_end, lemma_line_len, lemma_lines_make_text, lemma_lines_shape, line_end,
    lines_from, lines_of, scrub, scrub_lines,
};
use crate::laws::{deletes_to, in_comment, lemma_scan_only_deletes, lemma_scan_unfold};
use crate::rescan::{
    clean_ahead, false_starts_stay, in_literal, lemma_line_clean, lemma_line_clean_from_blank,
    placed,
};
use crate::scrub::{
    hash_run, initial_state, lemma_hash_run, lookahead, scan_from, scan_line, step, step_len,
    ChangeInfo, Scan, State,
};

verus! {

/// The records and the state after `upto` lines come from those after fewer
/// lines: no record is lost, and a block comment that is open with its
/// first line on record stays open or is put on record.
proof fn lemma_scrub_goes_on(lines: Seq<Seq<char>>, header_lines: usize, k: int, upto: int)
    requires
        0 <= k <= upto <= lines.len(),
        block_start_known(scrub_lines(lines, header_lines, k).state),
    ensures
        scrub_lines(lines, header_lines, k).events.len() <= scrub_lines(
            lines,
            header_lines,
            upto,
        ).events.len(),
        block_start_known(scrub_lines(lines, header_lines, upto).state),
        scrub_lines(lines, header_lines, k).state.current_parse_state == State::BlockComment ==> {
            ||| scrub_lines(lines, header_lines, upto).state.current_parse_state
                == State::BlockComment
            ||| scrub_lines(lines, header_lines, k).events.len() < scrub_lines(
                lines,
                header_lines,
                upto,
            ).events.len()
        },
    decreases upto - k,
{
    if k < upto {
        lemma_scrub_goes_on(lines, header_lines, k, upto - 1);
        let before = scrub_lines(lines, header_lines, upto - 1);
        if upto - 1 >= header_lines {
            let start = Scan { state: before.state, output: Seq::empty(), events: Seq::empty() };
            let number = upto as usize;
            lemma_block_start_known(lines[upto - 1], 0, number, start);
            lemma_weight_falls(lines[upto - 1], 0, number, start);
            if before.state.current_parse_state == State::BlockComment {
                lemma_open_block_shows(lines[upto - 1], 0, number, start);
            }
        }
    }
}

/// Where the whole scan finds no comment, the first `k` lines are kept as
/// they are.
proof fn lemma_clean_lines_kept(lines: Seq<Seq<char>>, header_lines: usize, k: int)
    requires
        0 <= k <= lines.len(),
        scrub_lines(lines, header_lines, lines.len() as int).events.len() == 0,
        scrub_lines(lines, header_lines, lines.len() as int).state.current_parse_state
            != State::BlockComment,
    ensures
        scrub_lines(lines, header_lines, k).output == lines.take(k).flatten_alt(),
        scrub_lines(lines, header_lines, k).events.len() == 0,
        !in_comment(scrub_lines(lines, header_lines, k).state.current_parse_state),
    decreases k,
{
    let now = scrub_lines(lines, header_lines, k);
    if k > 0 {
        lemma_clean_lines_kept(lines, header_lines, k - 1);
        let before = scrub_lines(lines, header_lines, k - 1);
        let line = lines[k - 1];
        assert(lines.take(k).drop_last() =~= lines.take(k - 1));
        assert(lines.take(k).last() == line);
        lemma_scrub_goes_on(lines, header_lines, 0, k);
        lemma_scrub_goes_on(lines, header_lines, k, lines.len() as int);
        if k - 1 >= header_lines {
            let number = k as usize;
            let this = scan_line(line, number, before.state);
            assert(now.events == before.events + this.events);
            if this.state.current_parse_state == State::LineComment {
                lemma_line_comment_shows(line, number, before.state);
            }
            lemma_comment_free_kept(line, number, before.state);
        }
    } else {
        assert(lines.take(0) =~= Seq::<Seq<char>>::empty());
    }
}

/// A text in which the scan finds no comment is kept whole, header or no
/// header: if scrubbing a text reports no comment and does not end inside a
/// block comment, what is left is the text.
pub proof fn lemma_comment_free_text_kept(text: Seq<char>, header_lines: usize)
    requires
        scrub(text, header_lines).events.len() == 0,
        scrub(text, header_lines).state.current_parse_state != State::BlockComment,
    ensures
        scrub(text, header_lines).output == text,
{
    let lines = lines_of(text);
    lemma_clean_lines_kept(lines, header_lines, lines.len() as int);
    lines.lemma_flatten_and_flatten_alt_are_equivalent();
    lemma_lines_make_text(text);
    assert(lines.take(lines.len() as int) =~= lines);
}

/// Nothing need be taken out of a text: a text is left of itself.
proof fn lemma_deletes_to_self(text: Seq<char>)
    ensures
        deletes_to(text, text),
    decreases text.len(),
{
    if text.len() > 0 {
        lemma_deletes_to_self(text.drop_last());
    }
}

/// What is left of two texts, put together, is left of the two texts put
/// together.
proof fn lemma_deletes_to_concat(a: Seq<char>, x: Seq<char>, b: Seq<char>, y: Seq<char>)
    requires
        deletes_to(a, x),
        deletes_to(b, y),
    ensures
        deletes_to(a + b, x + y),
    decreases b.len(),
{
    if b.len() == 0 {
        assert(a + b =~= a);
        assert(x + y =~= x);
    } else {
        let front = b.drop_last();
        assert((a + b).drop_last() =~= a + front);
        assert((a + b).last() == b.last());
        if y.len() > 0 && b.last() == y.last() && deletes_to(front, y.drop_last()) {
            lemma_deletes_to_concat(a, x, front, y.drop_last());
            assert((x + y).drop_last() =~= x + y.drop_last());
            assert((x + y).last() == y.last());
        } else {
            lemma_deletes_to_concat(a, x, front, y);
        }
    }
}

/// After `k` lines the text kept is what is left of those lines when some
/// of their characters are taken out.
proof fn lemma_lines_only_delete(lines: Seq<Seq<char>>, header_lines: usize, k: int)
    requires
        0 <= k <= lines.len(),
    ensures
        deletes_to(lines.take(k).flatten_alt(), scrub_lines(lines, header_lines, k).output),
    decreases k,
{
    if k > 0 {
        lemma_lines_only_delete(lines, header_lines, k - 1);
        let before = scrub_lines(lines, header_lines, k - 1);
        let line = lines[k - 1];
        assert(lines.take(k).drop_last() =~= lines.take(k - 1));
        assert(lines.take(k).last() == line);
        if k - 1 >= header_lines {
            lemma_scan_only_deletes(line, k as usize, before.state);
            lemma_deletes_to_concat(
                lines.take(k - 1).flatten_alt(),
                before.output,
                line,
                scan_line(line, k as usize, before.state).output,
            );
        } else {
            lemma_deletes_to_self(line);
            lemma_deletes_to_concat(lines.take(k - 1).flatten_alt(), before.output, line, line);
        }
    } else {
        assert(lines.take(0) =~= Seq::<Seq<char>>::empty());
    }
}

/// Scrubbing only takes characters out: the text kept is the text without
/// some of its characters. Nothing is added, changed or moved, in the
/// header or behind it.
pub proof fn lemma_scrub_only_deletes(text: Seq<char>, header_lines: usize)
    ensures
        deletes_to(text, scrub(text, header_lines).output),
{
    let lines = lines_of(text);
    lemma_lines_only_delete(lines, header_lines, lines.len() as int);
    assert(lines.take(lines.len() as int) =~= lines);
    lines.lemma_flatten_and_flatten_alt_are_equivalent();
    lemma_lines_make_text(text);
}

/// Every comment costs a text at least two characters: after `k` lines the
/// text kept, with two characters for each comment on record and two more
/// inside a block comment, is no longer than the lines so far.
proof fn lemma_lines_comments_cost(lines: Seq<Seq<char>>, header_lines: usize, k: int)
    requires
        0 <= k <= lines.len(),
    ensures
        weight(Seq::empty(), 0, scrub_lines(lines, header_lines, k)) <= lines.take(
            k,
        ).flatten_alt().len(),
    decreases k,
{
    if k > 0 {
        lemma_lines_comments_cost(lines, header_lines, k - 1);
        let before = scrub_lines(lines, header_lines, k - 1);
        let line = lines[k - 1];
        assert(lines.take(k).drop_last() =~= lines.take(k - 1));
        assert(lines.take(k).last() == line);
        if k - 1 >= header_lines {
            let start = Scan { state: before.state, output: Seq::empty(), events: Seq::empty() };
            lemma_weight_falls(line, 0, k as usize, start);
        }
    } else {
        assert(lines.take(0) =~= Seq::<Seq<char>>::empty());
    }
}

/// Every comment costs a text at least two characters: the text kept, with
/// two characters for each comment on record and two more if the text ends
/// inside a block comment, is no longer than the text.
pub proof fn lemma_text_comments_cost(text: Seq<char>, header_lines: usize)
    ensures
        ({
            let last = scrub(text, header_lines);
            last.output.len() + 2 * last.events.len() + if last.state.current_parse_state
                == State::BlockComment {
                2int
            } else {
                0int
            } <= text.len()
        }),
{
    let lines = lines_of(text);
    lemma_lines_comments_cost(lines, header_lines, lines.len() as int);
    assert(lines.take(lines.len() as int) =~= lines);
    lines.lemma_flatten_and_flatten_alt_are_equivalent();
    lemma_lines_make_text(text);
}

/// Scrubbing a text changes nothing exactly when it finds no comment in it:
/// the text is kept whole if and only if no comment is reported and the
/// text does not end inside a block comment.
pub proof fn lemma_text_unchanged_iff_comment_free(text: Seq<char>, header_lines: usize)
    ensures
        ({
            let last = scrub(text, header_lines);
            last.output == text <==> last.events.len() == 0 && last.state.current_parse_state
                != State::BlockComment
        }),
{
    let last = scrub(text, header_lines);
    lemma_text_comments_cost(text, header_lines);
    if last.events.len() == 0 && last.state.current_parse_state != State::BlockComment {
        lemma_comment_free_text_kept(text, header_lines);
    }
}

/// The text kept of the first lines of a text stays in front when more
/// lines are scrubbed.
pub proof fn lemma_scrub_text_grows(
    lines: Seq<Seq<char>>,
    header_lines: usize,
    k: int,
    upto: int,
)
    requires
        0 <= k <= upto,
    ensures
        scrub_lines(lines, header_lines, k).output.is_prefix_of(
            scrub_lines(lines, header_lines, upto).output,
        ),
    decreases upto - k,
{
    let first = scrub_lines(lines, header_lines, k).output;
    if k < upto {
        lemma_scrub_text_grows(lines, header_lines, k, upto - 1);
        let before = scrub_lines(lines, header_lines, upto - 1).output;
        let now = scrub_lines(lines, header_lines, upto).output;
        assert(before.is_prefix_of(now));
        assert(first =~= now.subrange(0, first.len() as int)) by {
            assert(before =~= now.subrange(0, before.len() as int));
        }
    } else {
        assert(first =~= first.subrange(0, first.len() as int));
    }
}

/// The scan of a line that ends in a line feed does not end inside a line
/// comment.
pub proof fn lemma_line_feed_ends_line_comment(
    line: Seq<char>,
    pos: int,
    line_num: usize,
    cur: Scan,
)
    requires
        0 <= pos <= line.len(),
        line.len() > 0,
        line.last() == '\n',
        pos == line.len() ==> cur.state.current_parse_state != State::LineComment,
    ensures
        scan_from(line, pos, line_num, cur).state.current_parse_state != State::LineComment,
    decreases line.len() - pos,
{
    if pos < line.len() {
        let len = step_len(line, pos, cur.state);
        lemma_scan_unfold(line, pos, line_num, cur);
        lemma_hash_run(line, pos + 1);
        if pos + len == line.len() && len > 1 {
            // what a step reads ahead is never a line feed
            assert(line[pos + len - 1] != '\n');
        }
        lemma_line_feed_ends_line_comment(
            line,
            pos + len,
            line_num,
            step(line, pos, line_num, cur),
        );
    }
}

/// The scan at the start of line `i` of a text.
pub open spec fn line_start(lines: Seq<Seq<char>>, header_lines: usize, i: int) -> Scan {
    Scan {
        state: scrub_lines(lines, header_lines, i).state,
        output: Seq::empty(),
        events: Seq::empty(),
    }
}

/// Whether every `r` that opens no raw string where it stands in the lines
/// behind the header opens none in `whole`, the text kept of all the lines.
#[verifier::opaque]
pub open spec fn false_starts_stay_in(
    lines: Seq<Seq<char>>,
    header_lines: usize,
    whole: Seq<char>,
) -> bool {
    forall|i: int|
        header_lines <= i < lines.len() ==> false_starts_stay(
            #[trigger] lines[i],
            0,
            (i + 1) as usize,
            line_start(lines, header_lines, i),
            whole,
            scrub_lines(lines, header_lines, i).output.len() as int,
        )
}

/// Whether scrubbing `text` forges the opening of a raw string: an `r` that
/// opens no raw string in the text, read in code, has `#` marks, if any,
/// and a quote behind it in the scrubbed text, because the comments between
/// them are gone.
pub open spec fn forges_raw_string_in_text(text: Seq<char>, header_lines: usize) -> bool {
    !false_starts_stay_in(lines_of(text), header_lines, scrub(text, header_lines).output)
}

/// Whether the lines are those of a text: none is empty, and every line but
/// the last ends in a line feed.
#[verifier::opaque]
spec fn well_split(lines: Seq<Seq<char>>) -> bool {
    &&& forall|i: int| 0 <= i < lines.len() ==> (#[trigger] lines[i]).len() > 0
    &&& forall|i: int| 0 <= i < lines.len() - 1 ==> (#[trigger] lines[i]).last() == '\n'
}

/// The lines of the header are kept as they are, and leave the scan in the
/// state in which it begins.
proof fn lemma_header_kept(lines: Seq<Seq<char>>, header_lines: usize, k: int)
    requires
        0 <= k <= lines.len(),
        k <= header_lines,
    ensures
        scrub_lines(lines, header_lines, k) == (Scan {
            state: initial_state(),
            output: lines.take(k).flatten_alt(),
            events: Seq::empty(),
        }),
    decreases k,
{
    if k > 0 {
        lemma_header_kept(lines, header_lines, k - 1);
        assert(lines.take(k).drop_last() =~= lines.take(k - 1));
        assert(lines.take(k).last() == lines[k - 1]);
        let before = scrub_lines(lines, header_lines, k - 1);
        assert(before.events + Seq::<ChangeInfo>::empty() =~= Seq::<ChangeInfo>::empty());
    } else {
        assert(lines.take(0) =~= Seq::<Seq<char>>::empty());
    }
}

/// What scrubbing one more line adds behind the header.
proof fn lemma_scrub_next(lines: Seq<Seq<char>>, header_lines: usize, i: int)
    requires
        header_lines <= i < lines.len(),
    ensures
        ({
            let before = scrub_lines(lines, header_lines, i);
            let this = scan_from(
                lines[i],
                0,
                (i + 1) as usize,
                line_start(lines, header_lines, i),
            );
            let after = scrub_lines(lines, header_lines, i + 1);
            &&& after.state == this.state
            &&& after.output == before.output + this.output
            &&& after.events == before.events + this.events
        }),
{
}

/// The text kept of all the lines holds the text kept of line `i` behind
/// the text kept of the lines before it.
proof fn lemma_line_placed(lines: Seq<Seq<char>>, header_lines: usize, i: int, whole: Seq<char>)
    requires
        header_lines <= i < lines.len(),
        well_split(lines),
        whole == scrub_lines(lines, header_lines, lines.len() as int).output,
    ensures
        placed(
            lines[i],
            0,
            (i + 1) as usize,
            line_start(lines, header_lines, i),
            whole,
            scrub_lines(lines, header_lines, i).output.len() as int,
        ),
{
    let before = scrub_lines(lines, header_lines, i).output;
    let after = scrub_lines(lines, header_lines, i + 1).output;
    let this = scan_from(lines[i], 0, (i + 1) as usize, line_start(lines, header_lines, i)).output;
    lemma_scrub_next(lines, header_lines, i);
    lemma_scrub_text_grows(lines, header_lines, i + 1, lines.len() as int);
    assert(after =~= whole.subrange(0, after.len() as int));
    assert(whole.subrange(before.len() as int, (before.len() + this.len()) as int) =~= this) by {
        assert forall|j: int| 0 <= j < this.len() implies whole[before.len() + j] == this[j] by {
            assert(whole.subrange(0, after.len() as int)[before.len() + j] == after[before.len()
                + j]);
        }
    }
    if i + 1 < lines.len() {
        reveal(well_split);
        assert(lines[i].last() == '\n');
    }
}

/// A second pass finds no comment in the text kept of a line that is
/// read from its start, provided that it finds none behind that.
proof fn lemma_whole_line_clean(
    line: Seq<char>,
    line_num: usize,
    start: Scan,
    whole: Seq<char>,
    base: int,
)
    requires
        start.output == Seq::<char>::empty(),
        start.state.current_parse_state != State::LineComment,
        placed(line, 0, line_num, start, whole, base),
        false_starts_stay(line, 0, line_num, start, whole, base),
        clean_ahead(scan_from(line, 0, line_num, start), whole, base),
    ensures
        clean_ahead(start, whole, base),
{
    if in_literal(start.state.current_parse_state) {
        lemma_line_clean(line, 0, line_num, start, whole, base);
    } else {
        lemma_line_clean_from_blank(line, 0, line_num, start, whole, base);
    }
}

/// The state at the start of a line is never that of a line comment.
proof fn lemma_no_line_comment_at_start(lines: Seq<Seq<char>>, header_lines: usize, i: int)
    requires
        header_lines <= i < lines.len(),
        well_split(lines),
    ensures
        scrub_lines(lines, header_lines, i).state.current_parse_state != State::LineComment,
{
    if i > header_lines {
        lemma_scrub_next(lines, header_lines, i - 1);
        let line = lines[i - 1];
        reveal(well_split);
        assert(line.len() > 0 && line.last() == '\n');
        lemma_line_feed_ends_line_comment(
            line,
            0,
            i as usize,
            line_start(lines, header_lines, i - 1),
        );
    } else {
        lemma_header_kept(lines, header_lines, i);
    }
}

/// From the start of line `i` on, behind the header, a second pass finds no
/// comment in the text kept of all the lines.
proof fn lemma_text_clean(lines: Seq<Seq<char>>, header_lines: usize, i: int, whole: Seq<char>)
    requires
        header_lines <= i <= lines.len(),
        well_split(lines),
        whole == scrub_lines(lines, header_lines, lines.len() as int).output,
        false_starts_stay_in(lines, header_lines, whole),
    ensures
        clean_ahead(scrub_lines(lines, header_lines, i), whole, 0),
    decreases lines.len() - i,
{
    if i < lines.len() {
        let line = lines[i];
        let number = (i + 1) as usize;
        let start = line_start(lines, header_lines, i);
        let base = scrub_lines(lines, header_lines, i).output.len() as int;
        let last = scan_from(line, 0, number, start);
        lemma_text_clean(lines, header_lines, i + 1, whole);
        assert(clean_ahead(last, whole, base)) by {
            lemma_scrub_next(lines, header_lines, i);
        }
        lemma_line_placed(lines, header_lines, i, whole);
        lemma_no_line_comment_at_start(lines, header_lines, i);
        assert(false_starts_stay(line, 0, number, start, whole, base)) by {
            reveal(false_starts_stay_in);
        }
        lemma_whole_line_clean(line, number, start, whole, base);
    }
}

/// Whether `text[b..e]` ends where a line ends: at the end of the text or
/// behind a line feed.
spec fn ends_line(text: Seq<char>, b: int, e: int) -> bool {
    &&& 0 <= b <= e <= text.len()
    &&& e == text.len() || (b < e && text[e - 1] == '\n')
}

/// A run of `#` marks in a stretch that ends where a line ends is as long
/// as in the whole text.
proof fn lemma_hash_run_in_line(text: Seq<char>, b: int, e: int, p: int)
    requires
        ends_line(text, b, e),
        0 <= p,
        b + p < e || (b + p == e && e == text.len()),
    ensures
        hash_run(text.subrange(b, e), p) == hash_run(text, b + p),
    decreases e - b - p,
{
    let part = text.subrange(b, e);
    if b + p < e {
        assert(part[p] == text[b + p]);
        if text[b + p] == '#' {
            lemma_hash_run_in_line(text, b, e, p + 1);
        }
    }
}

/// A step inside a stretch that ends where a line ends reads ahead as in
/// the whole text, and leads to the same class and fence.
proof fn lemma_step_in_line(
    text: Seq<char>,
    b: int,
    e: int,
    p: int,
    state: State,
    fence: usize,
)
    requires
        ends_line(text, b, e),
        0 <= p,
        b + p < e,
    ensures
        lookahead(text.subrange(b, e), p, bare(state, fence)) == lookahead(
            text,
            b + p,
            bare(state, fence),
        ),
        class_after(text.subrange(b, e), p, state, fence) == class_after(
            text,
            b + p,
            state,
            fence,
        ),
{
    let part = text.subrange(b, e);
    let c = text[b + p];
    assert(part[p] == c);
    if c != '\n' {
        // another character follows in the stretch, or the text ends
        lemma_hash_run_in_line(text, b, e, p + 1);
        lemma_hash_run(text, b + p + 1);
        lemma_hash_run(part, p + 1);
        let marks = hash_run(text, b + p + 1) as int;
        if b + p + 1 < e {
            assert(part[p + 1] == text[b + p + 1]);
        }
        if b + p + 1 + marks < e {
            assert(part[p + 1 + marks] == text[b + p + 1 + marks]);
        } else if e < text.len() {
            if marks > 0 {
                assert(text[e - 1] == '#');
            }
        }
    }
}

/// A stretch that ends where a line ends, in a text that holds no comment,
/// is kept as it is when it is scanned by itself, and leaves the scan where
/// the text behind it holds no comment.
proof fn lemma_clean_line_kept(
    text: Seq<char>,
    b: int,
    e: int,
    p: int,
    line_num: usize,
    cur: Scan,
)
    requires
        ends_line(text, b, e),
        0 <= p <= e - b,
        !in_comment(cur.state.current_parse_state),
        clean_from(text, b + p, cur.state.current_parse_state, cur.state.raw_string_hash_count),
    ensures
        ({
            let part = text.subrange(b, e);
            let last = scan_from(part, p, line_num, cur);
            &&& last.output == cur.output + part.subrange(p, e - b)
            &&& last.events == cur.events
            &&& !in_comment(last.state.current_parse_state)
            &&& clean_from(
                text,
                e,
                last.state.current_parse_state,
                last.state.raw_string_hash_count,
            )
        }),
    decreases e - b - p,
{
    let part = text.subrange(b, e);
    if p < e - b {
        let next = step(part, p, line_num, cur);
        let len = step_len(part, p, cur.state);
        lemma_scan_unfold(part, p, line_num, cur);
        lemma_class_exact(part, p, line_num, cur);
        lemma_step_in_line(
            text,
            b,
            e,
            p,
            cur.state.current_parse_state,
            cur.state.raw_string_hash_count,
        );
        assert(next.output == cur.output + part.subrange(p, p + len));
        lemma_clean_line_kept(text, b, e, p + len, line_num, next);
        assert(next.output + part.subrange(p + len, e - b) =~= cur.output + part.subrange(
            p,
            e - b,
        ));
    } else {
        assert(cur.output + part.subrange(p, e - b) =~= cur.output);
    }
}

/// Where line `k` of a text stands in it: behind the lines before it, as
/// long as they are together.
proof fn lemma_line_position(text: Seq<char>, k: int)
    requires
        0 <= k < lines_of(text).len(),
    ensures
        ({
            let lines = lines_of(text);
            let b = lines.take(k).flatten_alt().len() as int;
            let e = b + lines[k].len();
            &&& ends_line(text, b, e)
            &&& text.subrange(b, e) == lines[k]
            &&& lines.take(k + 1).flatten_alt() == lines.take(k).flatten_alt() + lines[k]
            &&& text.subrange(0, e) == lines.take(k + 1).flatten_alt()
        }),
{
    let lines = lines_of(text);
    let head = lines.take(k + 1);
    let tail = lines.skip(k + 1);
    lemma_lines_make_text(text);
    lemma_lines_shape(text, 0);
    assert(lines =~= head + tail);
    vstd::seq_lib::lemma_flatten_concat(head, tail);
    head.lemma_flatten_and_flatten_alt_are_equivalent();
    assert(head.drop_last() =~= lines.take(k));
    assert(head.last() == lines[k]);
    let b = lines.take(k).flatten_alt().len() as int;
    let e = b + lines[k].len();
    assert(text =~= head.flatten_alt() + tail.flatten());
    assert(text.subrange(0, e) =~= head.flatten_alt());
    assert(text.subrange(b, e) =~= lines[k]);
    if k + 1 < lines.len() {
        assert(lines[k].last() == '\n');
        assert(text.subrange(b, e)[e - b - 1] == text[e - 1]);
    } else {
        assert(tail =~= Seq::<Seq<char>>::empty());
    }
}

/// The number of lines that are kept as the header of a text of `count`
/// lines.
pub open spec fn header_of(count: nat, header_lines: usize) -> int {
    if header_lines <= count {
        header_lines as int
    } else {
        count as int
    }
}

/// The first `k` lines of a text that holds no comment behind its header
/// are kept as they are, bring no event, and leave the scan where the rest
/// of the text holds no comment.
proof fn lemma_clean_text_kept(text: Seq<char>, header_lines: usize, k: int)
    requires
        header_of(lines_of(text).len(), header_lines) <= k <= lines_of(text).len(),
        clean_from(
            text,
            lines_of(text).take(
                header_of(lines_of(text).len(), header_lines),
            ).flatten_alt().len() as int,
            State::Normal,
            0,
        ),
    ensures
        ({
            let lines = lines_of(text);
            let now = scrub_lines(lines, header_lines, k);
            &&& now.output == lines.take(k).flatten_alt()
            &&& now.events == Seq::<ChangeInfo>::empty()
            &&& !in_comment(now.state.current_parse_state)
            &&& clean_from(
                text,
                now.output.len() as int,
                now.state.current_parse_state,
                now.state.raw_string_hash_count,
            )
        }),
    decreases k,
{
    let lines = lines_of(text);
    if k > header_of(lines.len(), header_lines) {
        lemma_clean_text_kept(text, header_lines, k - 1);
        lemma_line_position(text, k - 1);
        lemma_scrub_next(lines, header_lines, k - 1);
        let before = scrub_lines(lines, header_lines, k - 1);
        let b = before.output.len() as int;
        let e = b + lines[k - 1].len();
        let start = line_start(lines, header_lines, k - 1);
        lemma_clean_line_kept(text, b, e, 0, k as usize, start);
        let part = text.subrange(b, e);
        assert(Seq::<char>::empty() + part.subrange(0, e - b) =~= part);
        assert(before.events + Seq::<ChangeInfo>::empty() =~= Seq::<ChangeInfo>::empty());
    } else {
        lemma_header_kept(lines, header_lines, k);
    }
}

/// Two texts that agree on a stretch hold the same characters there, and
/// agree on every part of it.
proof fn lemma_agree(text: Seq<char>, other: Seq<char>, a: int, b: int, c: int, d: int)
    requires
        0 <= a <= c <= d <= b,
        b <= text.len(),
        b <= other.len(),
        text.subrange(a, b) == other.subrange(a, b),
    ensures
        forall|j: int| a <= j < b ==> #[trigger] text[j] == other[j],
        text.subrange(c, d) == other.subrange(c, d),
{
    assert forall|j: int| a <= j < b implies #[trigger] text[j] == other[j] by {
        assert(text.subrange(a, b)[j - a] == text[j]);
        assert(other.subrange(a, b)[j - a] == other[j]);
    }
    assert(text.subrange(c, d) =~= other.subrange(c, d));
}

/// The line that starts at `from` is the same in two texts that agree from
/// `from` up to and including the line feed that ends it in one of them.
proof fn lemma_same_line(text: Seq<char>, other: Seq<char>, from: int, end: int)
    requires
        0 <= from < end,
        end <= text.len(),
        end <= other.len(),
        text.subrange(from, end) == other.subrange(from, end),
        line_end(text, from) == end,
        text[end - 1] == '\n',
    ensures
        line_end(other, from) == end,
{
    lemma_line_end(text, from);
    lemma_agree(text, other, from, end, from, end);
    assert forall|j: int| from <= j < end - 1 implies other[j] != '\n' by {
        assert(text[j] == other[j]);
    }
    assert(other[end - 1] == text[end - 1]);
    lemma_line_len(other, from, end - 1);
}

/// Two texts that agree from `from` on over `count` lines of one of them,
/// each with its line feed, have those lines in common.
proof fn lemma_same_lines(text: Seq<char>, other: Seq<char>, from: int, count: int)
    requires
        0 <= from <= text.len(),
        0 <= count < lines_from(text, from).len(),
        from + lines_from(text, from).take(count).flatten().len() <= text.len(),
        from + lines_from(text, from).take(count).flatten().len() <= other.len(),
        text.subrange(from, from + lines_from(text, from).take(count).flatten().len())
            == other.subrange(from, from + lines_from(text, from).take(count).flatten().len()),
    ensures
        count <= lines_from(other, from).len(),
        lines_from(other, from).take(count) == lines_from(text, from).take(count),
    decreases count,
{
    let mine = lines_from(text, from);
    let theirs = lines_from(other, from);
    if count > 0 {
        let end = line_end(text, from);
        let rest = lines_from(text, end);
        let total = mine.take(count).flatten().len() as int;
        lemma_line_end(text, from);
        assert(mine == seq![text.subrange(from, end)] + rest);
        assert(mine.drop_first() =~= rest);
        // the first line is followed by another, so it ends in a line feed
        assert(end < text.len()) by {
            if end >= text.len() {
                assert(rest =~= Seq::<Seq<char>>::empty());
            }
        }
        assert(mine.take(count).first() == text.subrange(from, end));
        assert(mine.take(count).drop_first() =~= rest.take(count - 1));
        assert(total == (end - from) + rest.take(count - 1).flatten().len());
        lemma_agree(text, other, from, from + total, from, end);
        lemma_same_line(text, other, from, end);
        lemma_agree(text, other, from, from + total, end, from + total);
        lemma_same_lines(text, other, end, count - 1);
        let their_rest = lines_from(other, end);
        assert(theirs == seq![other.subrange(from, end)] + their_rest);
        assert(theirs.take(count) =~= seq![other.subrange(from, end)] + their_rest.take(
            count - 1,
        ));
        assert(mine.take(count) =~= seq![text.subrange(from, end)] + rest.take(count - 1));
    } else {
        assert(theirs.take(0) =~= mine.take(0));
    }
}

/// The first `k` lines of a text, put together, are what the text begins
/// with.
proof fn lemma_line_position_of_head(text: Seq<char>, k: int)
    requires
        0 <= k <= lines_of(text).len(),
    ensures
        lines_of(text).take(k).flatten_alt().len() <= text.len(),
        text.subrange(0, lines_of(text).take(k).flatten_alt().len() as int) == lines_of(
            text,
        ).take(k).flatten_alt(),
{
    if k > 0 {
        lemma_line_position(text, k - 1);
    } else {
        assert(lines_of(text).take(0) =~= Seq::<Seq<char>>::empty());
        assert(text.subrange(0, 0) =~= Seq::<char>::empty());
    }
}

/// Scrubbing a text is idempotent: a second pass over the scrubbed text,
/// with as many lines kept as a header as in the first, keeps all of it and
/// finds no comment in it, provided that scrubbing the text does not forge
/// the opening of a raw string.
pub proof fn lemma_scrub_idempotent(text: Seq<char>, header_lines: usize)
    requires
        !forges_raw_string_in_text(text, header_lines),
    ensures
        ({
            let first = scrub(text, header_lines);
            let second = scrub(first.output, header_lines);
            second.output == first.output && second.events.len() == 0
        }),
{
    let lines = lines_of(text);
    let out = scrub(text, header_lines).output;
    let count = lines.len() as int;
    if count <= header_lines {
        // the whole text is header
        lemma_header_kept(lines, header_lines, count);
        assert(lines.take(count) =~= lines);
        lines.lemma_flatten_and_flatten_alt_are_equivalent();
        lemma_lines_make_text(text);
    } else {
        let head = lines.take(header_lines as int);
        assert(well_split(lines)) by {
            reveal(well_split);
            lemma_lines_shape(text, 0);
        }
        lemma_header_kept(lines, header_lines, header_lines as int);
        lemma_text_clean(lines, header_lines, header_lines as int, out);
        // the second pass keeps the same lines as its header
        lemma_scrub_text_grows(lines, header_lines, header_lines as int, count);
        lemma_line_position_of_head(text, header_lines as int);
        head.lemma_flatten_and_flatten_alt_are_equivalent();
        assert(text.subrange(0, head.flatten().len() as int) =~= out.subrange(
            0,
            head.flatten().len() as int,
        ));
        lemma_same_lines(text, out, 0, header_lines as int);
        let again = lines_of(out);
        assert(again.take(header_lines as int) == head);
        lemma_clean_text_kept(out, header_lines, again.len() as int);
        assert(again.take(again.len() as int) =~= again);
        again.lemma_flatten_and_flatten_alt_are_equivalent();
        lemma_lines_make_text(out);
    }
}

} // verus!
