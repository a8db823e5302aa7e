//! Header detection: a bounded look at the first lines of a file, to tell
//! whether they form a banner of comments that should be kept as it is.

use vstd::prelude::*;
use crate::text::{
    chars_of, decimal, joined, push_decimal, push_joined, push_text, texts, trim_bounds, trimmed,
    window_starts_with,
};

verus! {

/// The number of lines that a preview shows in full.
pub const MAX_PREVIEW_LINES: usize = 10;

/// The most lines that the search reads, and so the most that a header can
/// have: the line that makes them full ends the search, whatever it holds.
pub const MAX_HEADER_SIZE: usize = 50;

/// What a line looks like, judged by how it begins once white space is cut
/// off at both ends.
#[derive(Debug, Clone, Copy, PartialEq, Eq, Structural)]
pub enum LineKind {
    /// Nothing but white space.
    Blank,
    /// A doc comment (`///`, `//!`) or an inner attribute (`#![`).
    Doc,
    /// An ordinary comment: `//` or `/*`.
    Comment,
    /// A declaration: the line begins with one of the recognised keywords.
    Code,
    /// Anything else.
    Other,
}

/// Whether `t` begins with one of the declaration keywords, each followed by
/// a space.
pub open spec fn starts_declaration(t: Seq<char>) -> bool {
    ||| "use "@.is_prefix_of(t)
    ||| "mod "@.is_prefix_of(t)
    ||| "pub "@.is_prefix_of(t)
    ||| "fn "@.is_prefix_of(t)
    ||| "struct "@.is_prefix_of(t)
    ||| "enum "@.is_prefix_of(t)
    ||| "impl "@.is_prefix_of(t)
    ||| "trait "@.is_prefix_of(t)
}

/// The kind of `line`.
pub open spec fn classify(line: Seq<char>) -> LineKind {
    let t = trimmed(line);
    if t.len() == 0 {
        LineKind::Blank
    } else if "#!["@.is_prefix_of(t) || "//!"@.is_prefix_of(t) || "///"@.is_prefix_of(t) {
        LineKind::Doc
    } else if "//"@.is_prefix_of(t) || "/*"@.is_prefix_of(t) {
        LineKind::Comment
    } else if starts_declaration(t) {
        LineKind::Code
    } else {
        LineKind::Other
    }
}

/// Whether `line` counts as a comment: a doc line or an ordinary comment.
pub open spec fn is_comment(line: Seq<char>) -> bool {
    classify(line) == LineKind::Doc || classify(line) == LineKind::Comment
}

/// Whether one of the lines before line `i` is a comment.
pub open spec fn comment_before(lines: Seq<Seq<char>>, i: int) -> bool {
    exists|j: int| 0 <= j < i && j < lines.len() && is_comment(#[trigger] lines[j])
}

/// Whether line `i` exists and is blank.
pub open spec fn blank_at(lines: Seq<Seq<char>>, i: int) -> bool {
    0 <= i < lines.len() && classify(lines[i]) == LineKind::Blank
}

/// Whether line `i` is the third blank line in a row, with a comment
/// somewhere before it.
pub open spec fn ends_blank_run(lines: Seq<Seq<char>>, i: int) -> bool {
    &&& blank_at(lines, i)
    &&& blank_at(lines, i - 1)
    &&& blank_at(lines, i - 2)
    &&& comment_before(lines, i)
}

/// Whether the search for a header ends with line `i`:
/// at a declaration; at the third blank line in a row once a comment has
/// been seen; past the third line, once a comment has been seen, at a line
/// that is neither blank, comment nor declaration; and at the line with
/// which the size limit is reached, whatever it holds.
pub open spec fn stops_at(lines: Seq<Seq<char>>, i: int) -> bool
    recommends
        0 <= i < lines.len(),
{
    ||| i + 1 >= MAX_HEADER_SIZE
    ||| match classify(lines[i]) {
        LineKind::Blank => ends_blank_run(lines, i),
        LineKind::Doc | LineKind::Comment => false,
        LineKind::Code => true,
        LineKind::Other => i + 1 > 3 && comment_before(lines, i),
    }
}

/// The number of lines that the search reads when it starts at line `from`
/// with no stop before: up to and including the first line at which it
/// stops, or all of them.
pub open spec fn scan_len_from(lines: Seq<Seq<char>>, from: int) -> int
    decreases lines.len() - from,
{
    if from < 0 || from >= lines.len() {
        lines.len() as int
    } else if stops_at(lines, from) {
        from + 1
    } else {
        scan_len_from(lines, from + 1)
    }
}

/// The lines that the search reads.
pub open spec fn scanned(lines: Seq<Seq<char>>) -> Seq<Seq<char>> {
    lines.take(scan_len_from(lines, 0))
}

/// Whether the search has ended at the last of the lines `seen`.
pub open spec fn stopped(seen: Seq<Seq<char>>) -> bool {
    seen.len() > 0 && stops_at(seen, seen.len() - 1)
}

/// The length of the header, given the lines that the search read.
///
/// Where the last line read is a declaration, the header is what stands
/// before it. Where it is the third blank line in a row behind a comment,
/// the header is what stands before the three. Otherwise the header is all
/// that was read if a comment was among it, and nothing if not.
pub open spec fn header_len(seen: Seq<Seq<char>>) -> int {
    let n = seen.len() as int;
    if n > 0 && classify(seen[n - 1]) == LineKind::Code {
        n - 1
    } else if ends_blank_run(seen, n - 1) {
        n - 3
    } else if comment_before(seen, n) {
        n
    } else {
        0
    }
}

/// The preview of the lines that the search read: the first ten, joined by
/// line feeds, and where there are more, a last line that says how many:
/// `+`, their number and ` more lines`.
pub open spec fn preview_text(seen: Seq<Seq<char>>) -> Seq<char> {
    if seen.len() <= MAX_PREVIEW_LINES {
        joined(seen)
    } else {
        joined(seen.take(MAX_PREVIEW_LINES as int)) + seq!['\n', '+'] + decimal(
            (seen.len() - MAX_PREVIEW_LINES) as nat,
        ) + " more lines"@
    }
}

/// Finds the kind of a line.
pub fn classify_line(line: &str) -> (kind: LineKind)
    ensures
        kind == classify(line@),
{
    let chars = chars_of(line);
    let (a, b) = trim_bounds(&chars);
    if a == b {
        LineKind::Blank
    } else if window_starts_with(&chars, a, b, "#![") || window_starts_with(&chars, a, b, "//!")
        || window_starts_with(&chars, a, b, "///") {
        LineKind::Doc
    } else if window_starts_with(&chars, a, b, "//") || window_starts_with(&chars, a, b, "/*") {
        LineKind::Comment
    } else if window_starts_with(&chars, a, b, "use ") || window_starts_with(&chars, a, b, "mod ")
        || window_starts_with(&chars, a, b, "pub ") || window_starts_with(&chars, a, b, "fn ")
        || window_starts_with(&chars, a, b, "struct ") || window_starts_with(
        &chars,
        a,
        b,
        "enum ",
    ) || window_starts_with(&chars, a, b, "impl ") || window_starts_with(&chars, a, b, "trait ") {
        LineKind::Code
    } else {
        LineKind::Other
    }
}

/// Whether the search stops at line `i` depends on the lines up to `i` only.
pub proof fn lemma_stop_is_local(lines: Seq<Seq<char>>, len: int, i: int)
    requires
        0 <= i < len <= lines.len(),
    ensures
        stops_at(lines.take(len), i) == stops_at(lines, i),
        ends_blank_run(lines.take(len), i) == ends_blank_run(lines, i),
        comment_before(lines.take(len), i) == comment_before(lines, i),
{
    let part = lines.take(len);
    assert(part[i] == lines[i]);
    assert(blank_at(part, i) == blank_at(lines, i));
    assert(blank_at(part, i - 1) == blank_at(lines, i - 1));
    assert(blank_at(part, i - 2) == blank_at(lines, i - 2));
    if comment_before(lines, i) {
        let j = choose|j: int| 0 <= j < i && j < lines.len() && is_comment(#[trigger] lines[j]);
        assert(is_comment(part[j]));
    }
    if comment_before(part, i) {
        let j = choose|j: int| 0 <= j < i && j < part.len() && is_comment(#[trigger] part[j]);
        assert(is_comment(lines[j]));
    }
}

/// Where the search stops first: if it stops at none of the lines from
/// `from` up to `k`, and `k` is the end of the file or a line at which it
/// stops, then it reads the lines up to and including `k`.
pub proof fn lemma_scan_len(lines: Seq<Seq<char>>, from: int, k: int)
    requires
        0 <= from <= k <= lines.len(),
        forall|j: int| from <= j < k ==> !stops_at(lines, j),
        k < lines.len() ==> stops_at(lines, k),
    ensures
        scan_len_from(lines, from) == if k < lines.len() {
            k + 1
        } else {
            k
        },
    decreases k - from,
{
    if from < k {
        lemma_scan_len(lines, from + 1, k);
    }
}

/// The search reads no more lines than there are, and no more than the size
/// limit allows; the header is part of what it reads, so that no header is
/// longer than the size limit.
pub proof fn lemma_header_within(lines: Seq<Seq<char>>)
    ensures
        0 <= header_len(scanned(lines)) <= scanned(lines).len() <= lines.len(),
        scanned(lines).len() <= MAX_HEADER_SIZE,
{
    lemma_scan_len_within(lines, 0);
    lemma_scan_len_capped(lines, 0);
}

/// The search reads no more lines than the size limit allows.
proof fn lemma_scan_len_capped(lines: Seq<Seq<char>>, from: int)
    requires
        0 <= from < MAX_HEADER_SIZE,
    ensures
        scan_len_from(lines, from) <= MAX_HEADER_SIZE,
    decreases MAX_HEADER_SIZE - from,
{
    if from < lines.len() && !stops_at(lines, from) {
        lemma_scan_len_capped(lines, from + 1);
    }
}

/// The number of lines read lies between the line where the search starts
/// and the number of lines there are.
proof fn lemma_scan_len_within(lines: Seq<Seq<char>>, from: int)
    requires
        0 <= from <= lines.len(),
    ensures
        from <= scan_len_from(lines, from) <= lines.len(),
    decreases lines.len() - from,
{
    if from < lines.len() && !stops_at(lines, from) {
        lemma_scan_len_within(lines, from + 1);
    }
}

/// A file that begins with comment lines and goes on with a declaration has
/// exactly those comment lines as its header, however many they are within
/// the size limit, at which the search stops before it reads the
/// declaration.
pub proof fn lemma_header_before_declaration(lines: Seq<Seq<char>>, k: int)
    requires
        0 <= k < lines.len(),
        k <= MAX_HEADER_SIZE,
        forall|j: int| 0 <= j < k ==> is_comment(#[trigger] lines[j]),
        classify(lines[k]) == LineKind::Code,
    ensures
        header_len(scanned(lines)) == k,
{
    let seen = scanned(lines);
    if k < MAX_HEADER_SIZE {
        lemma_scan_len(lines, 0, k);
        assert(seen =~= lines.take(k + 1));
        lemma_stop_is_local(lines, k + 1, k);
        assert(seen[k] == lines[k]);
    } else {
        // the last of the comment lines makes the size limit full
        lemma_scan_len(lines, 0, k - 1);
        assert(seen =~= lines.take(k));
        lemma_stop_is_local(lines, k, k - 1);
        assert(seen[k - 1] == lines[k - 1]);
        assert(is_comment(seen[k - 1]));
        assert(!blank_at(seen, k - 1));
    }
}

/// A search for a header that is fed one line at a time.
///
/// Its view is the sequence of lines that the search has read: every line
/// observed up to and including the one at which it stopped.
pub struct HeaderScan {
    line_count: usize,
    saw_comment: bool,
    last_kind: LineKind,
    blank_before_last: bool,
    blank_run: bool,
    done: bool,
    preview: Vec<String>,
    seen: Ghost<Seq<Seq<char>>>,
}

impl View for HeaderScan {
    type V = Seq<Seq<char>>;

    closed spec fn view(&self) -> Seq<Seq<char>> {
        self.seen@
    }
}

impl HeaderScan {
    /// The fields agree with the lines read, and the search did not stop
    /// before the last of them.
    pub closed spec fn wf(&self) -> bool {
        let seen = self.seen@;
        let n = seen.len() as int;
        &&& self.line_count == n
        &&& self.saw_comment == comment_before(seen, n)
        &&& n > 0 ==> self.last_kind == classify(seen[n - 1])
        &&& n == 0 ==> self.last_kind == LineKind::Other
        &&& self.blank_before_last == blank_at(seen, n - 2)
        &&& self.blank_run == ends_blank_run(seen, n - 1)
        &&& self.done == stopped(seen)
        &&& forall|j: int| 0 <= j < n - 1 ==> !stops_at(seen, j)
        &&& texts(self.preview@) == if n <= MAX_PREVIEW_LINES {
            seen
        } else {
            seen.take(MAX_PREVIEW_LINES as int)
        }
    }

    /// A search that has read nothing yet.
    pub fn new() -> (scan: Self)
        ensures
            scan.wf(),
            scan@ == Seq::<Seq<char>>::empty(),
    {
        let scan = HeaderScan {
            line_count: 0,
            saw_comment: false,
            last_kind: LineKind::Other,
            blank_before_last: false,
            blank_run: false,
            done: false,
            preview: Vec::new(),
            seen: Ghost(Seq::empty()),
        };
        assert(texts(scan.preview@) =~= Seq::<Seq<char>>::empty());
        scan
    }

    /// Whether the search has stopped.
    pub fn is_done(&self) -> (done: bool)
        requires
            self.wf(),
        ensures
            done == stopped(self@),
    {
        self.done
    }

    /// Reads the next line of the file, unless the search has stopped
    /// already. Returns whether the search goes on.
    pub fn observe(&mut self, line: &str) -> (more: bool)
        requires
            old(self).wf(),
        ensures
            final(self).wf(),
            final(self)@ == if stopped(old(self)@) {
                old(self)@
            } else {
                old(self)@.push(line@)
            },
            more == !stopped(final(self)@),
    {
        if self.done {
            return false;
        }
        let ghost before = self.seen@;
        let ghost after = before.push(line@);
        let ghost i = before.len() as int;
        let kind = classify_line(line);
        proof {
            assert(after[i] == line@);
            assert(after.take(i) =~= before);
            assert forall|j: int| 0 <= j < i implies !stops_at(after, j) by {
                lemma_stop_is_local(after, i, j);
            }
            assert(comment_before(after, i) == comment_before(before, i)) by {
                if i > 0 {
                    lemma_stop_is_local(after, i, i - 1);
                    assert(comment_before(before, i) == (comment_before(before, i - 1)
                        || is_comment(before[i - 1])));
                    assert(comment_before(after, i) == (comment_before(after, i - 1)
                        || is_comment(after[i - 1])));
                }
            }
            assert(blank_at(after, i - 1) == blank_at(before, i - 1));
            assert(blank_at(after, i - 2) == blank_at(before, i - 2));
            // the search has not stopped, so the size limit is not reached
            assert(i < MAX_HEADER_SIZE) by {
                if i > 0 {
                    assert(!stops_at(before, i - 1));
                }
            }
        }
        if self.line_count < MAX_PREVIEW_LINES {
            let ghost shown = self.preview@;
            self.preview.push(line.to_owned());
            assert(texts(self.preview@) =~= texts(shown).push(line@));
            assert(texts(self.preview@) =~= after);
        } else {
            assert(after.take(MAX_PREVIEW_LINES as int) =~= before.take(
                MAX_PREVIEW_LINES as int,
            ));
        }
        self.line_count = self.line_count + 1;
        let last_blank = match self.last_kind {
            LineKind::Blank => true,
            _ => false,
        };
        let blank_run = match kind {
            LineKind::Blank => last_blank && self.blank_before_last && self.saw_comment,
            _ => false,
        };
        let stop = self.line_count >= MAX_HEADER_SIZE || match kind {
            LineKind::Blank => blank_run,
            LineKind::Doc | LineKind::Comment => false,
            LineKind::Code => true,
            LineKind::Other => self.line_count > 3 && self.saw_comment,
        };
        let comment = match kind {
            LineKind::Doc | LineKind::Comment => true,
            _ => false,
        };
        self.blank_before_last = last_blank;
        self.blank_run = blank_run;
        self.last_kind = kind;
        proof {
            assert(comment_before(after, i + 1) == (comment_before(after, i) || is_comment(
                after[i],
            )));
        }
        self.saw_comment = self.saw_comment || comment;
        self.done = stop;
        self.seen = Ghost(after);
        !stop
    }

    /// The header that the lines read so far give: its length in lines,
    /// which is never more than the size limit, and the preview to show for
    /// it.
    pub fn decision(&self) -> (r: (usize, String))
        requires
            self.wf(),
        ensures
            r.0 == header_len(self@),
            r.1@ == preview_text(self@),
            r.0 <= MAX_HEADER_SIZE,
    {
        let ghost seen = self.seen@;
        proof {
            // no line before the last has reached the size limit
            if seen.len() >= 2 {
                assert(!stops_at(seen, seen.len() - 2));
            }
        }
        let shown = self.preview.len();
        proof {
            assert(texts(self.preview@).len() == shown);
            assert(texts(self.preview@).take(shown as int) =~= texts(self.preview@));
        }
        let mut preview = String::new();
        push_joined(&mut preview, &self.preview, shown);
        if shown < self.line_count {
            preview.push('\n');
            preview.push('+');
            push_decimal(&mut preview, self.line_count - shown);
            push_text(&mut preview, " more lines");
        }
        assert(preview@ =~= preview_text(seen));
        let header = match self.last_kind {
            LineKind::Code => self.line_count - 1,
            _ => if self.blank_run {
                self.line_count - 3
            } else if self.saw_comment {
                self.line_count
            } else {
                0
            },
        };
        (header, preview)
    }
}

/// Looks for a header at the start of a file, given the file's lines without
/// their line ends.
///
/// Reads the lines in order until the search stops, which it does with the
/// line that reaches the size limit at the latest, and returns the length of
/// the header in lines together with a preview of what was read. The header
/// is never longer than the size limit.
pub fn detect_header(lines: &Vec<String>) -> (r: (usize, String))
    ensures
        r.0 == header_len(scanned(texts(lines@))),
        r.1@ == preview_text(scanned(texts(lines@))),
        r.0 <= lines.len(),
        r.0 <= MAX_HEADER_SIZE,
{
    proof {
        lemma_header_within(texts(lines@));
    }
    let ghost all = texts(lines@);
    let mut scan = HeaderScan::new();
    let mut i: usize = 0;
    assert(all.take(0) =~= scan@);
    while i < lines.len()
        invariant_except_break
            i <= lines.len(),
            scan@ == all.take(i as int),
            !stopped(scan@),
            scan_len_from(all, 0) == scan_len_from(all, i as int),
        invariant
            all == texts(lines@),
            scan.wf(),
        ensures
            scan@ == scanned(all),
        decreases lines.len() - i,
    {
        let more = scan.observe(lines[i].as_str());
        proof {
            assert(scan@ =~= all.take(i + 1));
            lemma_stop_is_local(all, i + 1, i as int);
        }
        i += 1;
        if !more {
            break ;
        }
    }
    proof {
        if i == lines.len() && !stopped(scan@) {
            assert(all.take(i as int) =~= all);
        }
    }
    scan.decision()
}

} // verus!
