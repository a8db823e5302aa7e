//! Scrubbing a whole text: the first lines may be kept as a header, every
//! line after them goes through the scanner, which carries its state along.

use vstd::prelude::*;
use crate::scrub::{
    initial_state, process_line_streaming, scan_line, ChangeInfo, Scan, StreamState,
    VerboseCommentType,
};
use crate::text::{chars_of, push_text, texts};

verus! {

/// The number of characters from `from` to the next line feed or, where
/// there is none, to the end of the text.
pub open spec fn line_len(text: Seq<char>, from: int) -> nat
    decreases text.len() - from,
{
    if 0 <= from < text.len() && text[from] != '\n' {
        1 + line_len(text, from + 1)
    } else {
        0
    }
}

/// The position after the line that starts at `from`: after its line feed
/// or, for a last line without one, the end of the text.
pub open spec fn line_end(text: Seq<char>, from: int) -> int {
    let stop = from + line_len(text, from);
    if 0 <= stop < text.len() {
        stop + 1
    } else {
        stop
    }
}

/// The lines of the text from `from` on, each with its line feed.
pub open spec fn lines_from(text: Seq<char>, from: int) -> Seq<Seq<char>>
    decreases
        if from < text.len() {
            text.len() - from
        } else {
            0
        },
{
    if 0 <= from < text.len() {
        seq![text.subrange(from, line_end(text, from))] + lines_from(text, line_end(text, from))
    } else {
        Seq::empty()
    }
}

/// The lines of `text`. Every line keeps its line feed; a text that does not
/// end in a line feed has a last line without one; the empty text has no
/// lines.
pub open spec fn lines_of(text: Seq<char>) -> Seq<Seq<char>> {
    lines_from(text, 0)
}

/// A stretch without line feeds that starts a line lies within that line.
pub proof fn lemma_line_len(text: Seq<char>, from: int, to: int)
    requires
        0 <= from <= to <= text.len(),
        forall|j: int| from <= j < to ==> text[j] != '\n',
    ensures
        line_len(text, from) == (to - from) + line_len(text, to),
    decreases to - from,
{
    if from < to {
        lemma_line_len(text, from + 1, to);
    }
}

/// Splits `text` into its lines.
pub fn split_lines(text: &str) -> (lines: Vec<String>)
    ensures
        texts(lines@) == lines_of(text@),
{
    let chars = chars_of(text);
    let n = chars.len();
    let mut lines: Vec<String> = Vec::new();
    let mut cur = String::new();
    let mut i: usize = 0;
    let mut start: usize = 0;
    assert(texts(lines@) =~= Seq::<Seq<char>>::empty());
    while i < n
        invariant
            n == chars.len(),
            chars@ == text@,
            0 <= start <= i <= n,
            cur@ == chars@.subrange(start as int, i as int),
            forall|j: int| start <= j < i ==> chars@[j] != '\n',
            lines_of(chars@) == texts(lines@) + lines_from(chars@, start as int),
        decreases n - i,
    {
        let c = chars[i];
        cur.push(c);
        assert(cur@ =~= chars@.subrange(start as int, i + 1));
        if c == '\n' {
            proof {
                lemma_line_len(chars@, start as int, i as int);
                assert(line_end(chars@, start as int) == i + 1);
            }
            let ghost done = texts(lines@);
            lines.push(cur);
            cur = String::new();
            proof {
                assert(texts(lines@) =~= done.push(chars@.subrange(start as int, i + 1)));
                assert(lines_of(chars@) =~= texts(lines@) + lines_from(chars@, i + 1));
            }
            start = i + 1;
            assert(cur@ =~= chars@.subrange(start as int, i + 1));
        }
        i += 1;
    }
    if start < n {
        proof {
            lemma_line_len(chars@, start as int, n as int);
            assert(line_end(chars@, start as int) == n);
        }
        let ghost done = texts(lines@);
        lines.push(cur);
        assert(texts(lines@) =~= done.push(chars@.subrange(start as int, n as int)));
        assert(lines_from(chars@, n as int) =~= Seq::<Seq<char>>::empty());
        assert(lines_from(chars@, start as int) =~= seq![chars@.subrange(start as int, n as int)]);
        assert(lines_of(chars@) =~= texts(lines@));
    } else {
        assert(lines_of(chars@) =~= texts(lines@));
    }
    lines
}

/// What one line of a file yields when `seen` lines came before it: a line
/// of the header is kept as it is and leaves the state alone; any other line
/// is scanned under its number in the file, which counts from one.
pub open spec fn feed(line: Seq<char>, header_lines: usize, seen: int, st: StreamState) -> Scan {
    if seen < header_lines {
        Scan { state: st, output: line, events: Seq::empty() }
    } else {
        scan_line(line, (seen + 1) as usize, st)
    }
}

/// What the first `upto` of `lines` yield together, the scan starting in
/// the initial state: the texts kept, one after the other, and the comments
/// removed, in order.
pub open spec fn scrub_lines(lines: Seq<Seq<char>>, header_lines: usize, upto: int) -> Scan
    decreases upto,
{
    if upto <= 0 {
        Scan { state: initial_state(), output: Seq::empty(), events: Seq::empty() }
    } else {
        let before = scrub_lines(lines, header_lines, upto - 1);
        let this = feed(lines[upto - 1], header_lines, upto - 1, before.state);
        Scan {
            state: this.state,
            output: before.output + this.output,
            events: before.events + this.events,
        }
    }
}

/// What scrubbing the whole of `text` yields when its first `header_lines`
/// lines are kept as they are.
pub open spec fn scrub(text: Seq<char>, header_lines: usize) -> Scan {
    scrub_lines(lines_of(text), header_lines, lines_of(text).len() as int)
}

/// The progress of scrubbing one file, line by line.
#[derive(Debug, Clone, Copy)]
pub struct Scrubber {
    /// The number of leading lines that are kept as they are.
    pub header_lines: usize,
    /// The number of lines fed so far.
    pub lines_seen: usize,
    /// The scanner's state after the lines fed so far.
    pub state: StreamState,
}

impl Scrubber {
    /// The start of a file whose first `header_lines` lines are its header.
    pub fn new(header_lines: usize) -> (s: Self)
        ensures
            s.header_lines == header_lines,
            s.lines_seen == 0,
            s.state == initial_state(),
    {
        Scrubber { header_lines, lines_seen: 0, state: StreamState::default() }
    }

    /// Takes the next line of the file and returns what is left of it, with
    /// the comments that were removed on it.
    pub fn feed_line(&mut self, line: &str) -> (r: (String, Vec<ChangeInfo>))
        requires
            old(self).lines_seen < usize::MAX,
        ensures
            final(self).header_lines == old(self).header_lines,
            final(self).lines_seen == old(self).lines_seen + 1,
            ({
                let this = feed(
                    line@,
                    old(self).header_lines,
                    old(self).lines_seen as int,
                    old(self).state,
                );
                &&& r.0@ == this.output
                &&& r.1@ == this.events
                &&& final(self).state == this.state
            }),
    {
        let number = self.lines_seen + 1;
        let in_header = self.lines_seen < self.header_lines;
        self.lines_seen = number;
        if in_header {
            (line.to_owned(), Vec::new())
        } else {
            process_line_streaming(line, number, &mut self.state)
        }
    }
}

/// Scrubs a whole text: its first `header_lines` lines are kept as they are,
/// the comments of all lines after them are removed. Returns the text that
/// is left and the comments removed, in order.
pub fn scrub_text(input: &str, header_lines: usize) -> (r: (String, Vec<ChangeInfo>))
    ensures
        r.0@ == scrub(input@, header_lines).output,
        r.1@ == scrub(input@, header_lines).events,
{
    let lines = split_lines(input);
    let ghost all = texts(lines@);
    let mut scrubber = Scrubber::new(header_lines);
    let mut output = String::new();
    let mut events: Vec<ChangeInfo> = Vec::new();
    let mut i: usize = 0;
    while i < lines.len()
        invariant
            i <= lines.len(),
            all == texts(lines@),
            scrubber.header_lines == header_lines,
            scrubber.lines_seen == i,
            scrub_lines(all, header_lines, i as int) == (Scan {
                state: scrubber.state,
                output: output@,
                events: events@,
            }),
        decreases lines.len() - i,
    {
        let (kept, mut removed) = scrubber.feed_line(lines[i].as_str());
        push_text(&mut output, kept.as_str());
        events.append(&mut removed);
        i += 1;
    }
    (output, events)
}

/// The number of comments of the given kind among `events`.
pub open spec fn count_of(events: Seq<ChangeInfo>, kind: VerboseCommentType) -> nat
    decreases events.len(),
{
    if events.len() == 0 {
        0
    } else {
        count_of(events.drop_last(), kind) + if events.last().comment_type == kind {
            1nat
        } else {
            0nat
        }
    }
}

/// Counts the removed comments of one kind.
pub fn count_comments(changes: &Vec<ChangeInfo>, kind: VerboseCommentType) -> (n: usize)
    ensures
        n == count_of(changes@, kind),
{
    let mut n: usize = 0;
    let mut i: usize = 0;
    while i < changes.len()
        invariant
            i <= changes.len(),
            n <= i,
            n == count_of(changes@.take(i as int), kind),
        decreases changes.len() - i,
    {
        assert(changes@.take(i + 1).drop_last() =~= changes@.take(i as int));
        if changes[i].comment_type == kind {
            n += 1;
        }
        i += 1;
    }
    assert(changes@.take(i as int) =~= changes@);
    n
}

/// A line is not empty and ends within the text.
pub proof fn lemma_line_end(text: Seq<char>, from: int)
    requires
        0 <= from < text.len(),
    ensures
        from < line_end(text, from) <= text.len(),
        forall|j: int| from <= j < line_end(text, from) - 1 ==> text[j] != '\n',
        line_end(text, from) < text.len() ==> text[line_end(text, from) - 1] == '\n',
{
    lemma_line_len_bound(text, from);
}

/// The stretch that `line_len` measures lies within the text, holds no line
/// feed, and ends at a line feed or at the end of the text.
proof fn lemma_line_len_bound(text: Seq<char>, from: int)
    requires
        0 <= from <= text.len(),
    ensures
        from + line_len(text, from) <= text.len(),
        forall|j: int| from <= j < from + line_len(text, from) ==> text[j] != '\n',
        from + line_len(text, from) < text.len() ==> text[from + line_len(text, from)] == '\n',
    decreases text.len() - from,
{
    if from < text.len() && text[from] != '\n' {
        lemma_line_len_bound(text, from + 1);
    }
}

/// The lines from `from` on, put together again, are the text from `from`
/// on.
proof fn lemma_lines_from_flatten(text: Seq<char>, from: int)
    requires
        0 <= from <= text.len(),
    ensures
        lines_from(text, from).flatten() == text.subrange(from, text.len() as int),
    decreases text.len() - from,
{
    if from < text.len() {
        lemma_line_end(text, from);
        let end = line_end(text, from);
        let first = text.subrange(from, end);
        let rest = lines_from(text, end);
        lemma_lines_from_flatten(text, end);
        let all = lines_from(text, from);
        assert(all == seq![first] + rest);
        assert(all.first() == first);
        assert(all.drop_first() =~= rest);
        assert(first + text.subrange(end, text.len() as int) =~= text.subrange(
            from,
            text.len() as int,
        ));
    } else {
        assert(text.subrange(from, text.len() as int) =~= Seq::<char>::empty());
    }
}

/// Splitting a text into lines loses nothing and adds nothing: the lines,
/// put together again, are the text.
pub proof fn lemma_lines_make_text(text: Seq<char>)
    ensures
        lines_of(text).flatten() == text,
{
    lemma_lines_from_flatten(text, 0);
    assert(text.subrange(0, text.len() as int) =~= text);
}

/// The lines of a text are not empty, and a line feed is the last
/// character of every line but perhaps the last, and occurs nowhere else.
pub proof fn lemma_lines_shape(text: Seq<char>, from: int)
    requires
        0 <= from <= text.len(),
    ensures
        forall|i: int, j: int|
            #![trigger lines_from(text, from)[i][j]]
            0 <= i < lines_from(text, from).len() && 0 <= j < lines_from(text, from)[i].len() - 1
                ==> lines_from(text, from)[i][j] != '\n',
        forall|i: int|
            0 <= i < lines_from(text, from).len() ==> (#[trigger] lines_from(text, from)[i]).len()
                > 0,
        forall|i: int|
            0 <= i < lines_from(text, from).len() - 1 ==> (#[trigger] lines_from(
                text,
                from,
            )[i]).last() == '\n',
    decreases text.len() - from,
{
    if from < text.len() {
        lemma_line_end(text, from);
        let end = line_end(text, from);
        lemma_lines_shape(text, end);
        let all = lines_from(text, from);
        let rest = lines_from(text, end);
        assert(all == seq![text.subrange(from, end)] + rest);
        assert forall|i: int| 0 < i < all.len() implies all[i] == rest[i - 1] by {}
        if end < text.len() {
            lemma_line_end(text, end);
            assert(rest.len() > 0);
        } else {
            assert(rest.len() == 0);
        }
        assert forall|i: int, j: int|
            #![trigger all[i][j]]
            0 <= i < all.len() && 0 <= j < all[i].len() - 1 implies all[i][j] != '\n' by {
            if i > 0 {
                assert(all[i][j] == rest[i - 1][j]);
            }
        }
        assert forall|i: int| 0 <= i < all.len() - 1 implies (#[trigger] all[i]).last()
            == '\n' by {
            if i > 0 {
                assert(all[i] == rest[i - 1]);
            }
        }
    }
}

} // verus!
